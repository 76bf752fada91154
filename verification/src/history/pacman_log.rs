//! `pacman.log`: libalpm's line format, written and read.
//!
//! A line is `[stamp] [caller] message`. piko's caller is `PIKO` where libalpm's is `ALPM`, so
//! reading the file always says which tool acted.

use vstd::prelude::*;
use vstd::slice::slice_subrange;

use crate::bytes;
use crate::history;
use crate::history::time_fmt;
use crate::history::time_fmt::LocalOffset;
use crate::history::{Action, ActionView, Outcome, OutcomeView};
use crate::text;

verus! {

broadcast use {crate::text::group_lists, crate::history::lemma_actions_push};

/// The caller piko's own lines carry.
pub const CALLER: &'static str = "PIKO";

/// The caller a scriptlet's output carries.
pub const SCRIPTLET_CALLER: &'static str = "PIKO-SCRIPTLET";

/// Largest part of a log that is read. A log is as long as a system is old, and holds the output of
/// every scriptlet that ever ran.
pub const MAX_LOG_BYTES: u64 = 67_108_864;

/// `message` without the line feed that ends it.
pub open spec fn unterminated(message: Seq<char>) -> Seq<char> {
    if message.len() > 0 && message.last() == '\n' {
        message.drop_last()
    } else {
        message
    }
}

/// What a line holds, without the line feed that ends it.
pub open spec fn line_body(stamp: Seq<char>, caller: Seq<char>, message: Seq<char>) -> Seq<char> {
    "["@ + stamp + "] ["@ + caller + "] "@ + message
}

/// The line for a message at an instant.
pub open spec fn log_line(
    epoch: int,
    offset: int,
    caller: Seq<char>,
    message: Seq<char>,
) -> Seq<char> {
    line_body(time_fmt::stamp(epoch, offset), caller, unterminated(message)).push('\n')
}

/// The line for a message at an instant. A line feed already ending `message` is not doubled.
pub fn line_at(epoch: i64, offset: LocalOffset, caller: &str, message: &str) -> (r: String)
    ensures
        r@ == log_line(epoch as int, offset@, caller@, message@),
{
    let mut out = "[".to_owned();
    out.push_str(time_fmt::render(epoch, offset).as_str());
    out.push_str("] [");
    out.push_str(caller);
    out.push_str("] ");
    let all = text::chars(message);
    let n = all.len();
    if n > 0 && all[n - 1] == '\n' {
        let head = slice_subrange(all.as_slice(), 0, n - 1);
        assert(head@ =~= message@.drop_last());
        out.push_str(text::text(head).as_str());
    } else {
        out.push_str(message);
    }
    out.push('\n');
    out
}

/// One parsed line.
#[derive(Clone, Debug, Eq, PartialEq)]
pub struct Line {
    /// When it was written, when the leader could be dated.
    pub timestamp: Option<i64>,
    /// The bracketed caller: `PIKO`, `ALPM`, `PACMAN`, `ALPM-SCRIPTLET`, ...
    pub caller: String,
    /// Everything after the leader.
    pub message: String,
}

/// What a [`Line`] says.
pub struct LineView {
    /// When it was written.
    pub timestamp: Option<i64>,
    /// The caller.
    pub caller: Seq<char>,
    /// The message.
    pub message: Seq<char>,
}

impl View for Line {
    type V = LineView;

    open spec fn view(&self) -> LineView {
        LineView { timestamp: self.timestamp, caller: self.caller@, message: self.message@ }
    }
}

/// The instant a stamp spells, as the readers hold it.
pub open spec fn dated(s: Seq<char>) -> Option<i64> {
    match time_fmt::instant(s) {
        Some(epoch) => Some(epoch as i64),
        None => None,
    }
}

/// What a line of a log file says, where it has a leader.
pub open spec fn line_of(s: Seq<char>) -> Option<LineView> {
    match text::strip_prefix(s, "["@) {
        Some(rest) => match text::split_once(rest, ']') {
            Some((stamp, rest)) => match text::strip_prefix(rest, " ["@) {
                Some(rest) => match text::split_once_text(rest, "] "@) {
                    Some((caller, message)) => Some(
                        LineView { timestamp: dated(stamp), caller, message },
                    ),
                    None => None,
                },
                None => None,
            },
            None => None,
        },
        None => None,
    }
}

/// The action a message reports: `verb name (versions)`.
pub open spec fn action_of_message(s: Seq<char>) -> Option<ActionView> {
    match text::split_once(s, ' ') {
        Some((verb, rest)) => match text::split_once_text(rest, " ("@) {
            Some((name, tail)) => match text::strip_suffix(tail, ")"@) {
                Some(versions) => match text::split_once_text(versions, " -> "@) {
                    None => if verb == "installed"@ {
                        Some(ActionView::Installed { name, version: versions })
                    } else if verb == "reinstalled"@ {
                        Some(ActionView::Reinstalled { name, version: versions })
                    } else if verb == "removed"@ {
                        Some(ActionView::Removed { name, version: versions })
                    } else {
                        None
                    },
                    Some((from, to)) => if verb == "upgraded"@ {
                        Some(ActionView::Upgraded { name, from, to })
                    } else if verb == "downgraded"@ {
                        Some(ActionView::Downgraded { name, from, to })
                    } else {
                        None
                    },
                },
                None => None,
            },
            None => None,
        },
        None => None,
    }
}

impl Line {
    /// Parses one line of a log file.
    ///
    /// Returns `None` for a line with no `[stamp] [caller] ` leader.
    pub fn parse(s: &str) -> (r: Option<Self>)
        ensures
            match r {
                Some(line) => line_of(s@) == Some(line@),
                None => line_of(s@) is None,
            },
    {
        let all = text::chars(s);
        let rest = match text::after_text(all.as_slice(), "[") {
            Some(rest) => rest,
            None => {
                return None;
            },
        };
        let (stamp, rest) = match text::cut_once(rest, ']') {
            Some(parts) => parts,
            None => {
                return None;
            },
        };
        let rest = match text::after_text(rest, " [") {
            Some(rest) => rest,
            None => {
                return None;
            },
        };
        match text::cut_once_text(rest, "] ") {
            Some((caller, message)) => Some(
                Line {
                    timestamp: time_fmt::parse_chars(stamp),
                    caller: text::text(caller),
                    message: text::text(message),
                },
            ),
            None => None,
        }
    }

    /// The action this line reports, if it reports one.
    pub fn action(&self) -> (r: Option<Action>)
        ensures
            match r {
                Some(action) => action_of_message(self.message@) == Some(action@),
                None => action_of_message(self.message@) is None,
            },
    {
        let all = text::chars(self.message.as_str());
        let (verb, rest) = match text::cut_once(all.as_slice(), ' ') {
            Some(parts) => parts,
            None => {
                return None;
            },
        };
        let (name, tail) = match text::cut_once_text(rest, " (") {
            Some(parts) => parts,
            None => {
                return None;
            },
        };
        let versions = match text::before_text(tail, ")") {
            Some(versions) => versions,
            None => {
                return None;
            },
        };
        let name = text::text(name);
        match text::cut_once_text(versions, " -> ") {
            None => {
                let version = text::text(versions);
                if text::spells(verb, "installed") {
                    Some(Action::Installed { name, version })
                } else if text::spells(verb, "reinstalled") {
                    Some(Action::Reinstalled { name, version })
                } else if text::spells(verb, "removed") {
                    Some(Action::Removed { name, version })
                } else {
                    None
                }
            },
            Some((from, to)) => {
                let from = text::text(from);
                let to = text::text(to);
                if text::spells(verb, "upgraded") {
                    Some(Action::Upgraded { name, from, to })
                } else if text::spells(verb, "downgraded") {
                    Some(Action::Downgraded { name, from, to })
                } else {
                    None
                }
            },
        }
    }
}

/// One transaction, as the log describes it.
#[derive(Clone, Debug, Eq, PartialEq)]
pub struct Session {
    /// The id piko stamped on the `transaction started` line, when piko wrote it.
    pub id: Option<String>,
    /// The tool that wrote the transaction's lines.
    pub caller: String,
    /// When it started.
    pub started: Option<i64>,
    /// When it ended, absent if the log has no ending for it.
    pub finished: Option<i64>,
    /// The command line, from a `Running '...'` line preceding it.
    pub command: Option<String>,
    /// What it did, in order.
    pub actions: Vec<Action>,
    /// The hooks it ran, in order.
    pub hooks: Vec<String>,
    /// How it ended, `Interrupted` when the log has no ending for it.
    pub outcome: Outcome,
}

/// What a [`Session`] says.
#[verifier::ext_equal]
pub struct SessionView {
    /// The id.
    pub id: Option<Seq<char>>,
    /// The tool.
    pub caller: Seq<char>,
    /// When it started.
    pub started: Option<i64>,
    /// When it ended.
    pub finished: Option<i64>,
    /// The command line.
    pub command: Option<Seq<char>>,
    /// What it did.
    pub actions: Seq<ActionView>,
    /// The hooks it ran.
    pub hooks: Seq<Seq<char>>,
    /// How it ended.
    pub outcome: OutcomeView,
}

impl View for Session {
    type V = SessionView;

    open spec fn view(&self) -> SessionView {
        SessionView {
            id: text::maybe(self.id),
            caller: self.caller@,
            started: self.started,
            finished: self.finished,
            command: text::maybe(self.command),
            actions: history::action_views(self.actions@),
            hooks: text::texts(self.hooks@),
            outcome: self.outcome@,
        }
    }
}

/// The views of a list of sessions.
pub open spec fn session_views(list: Seq<Session>) -> Seq<SessionView> {
    Seq::new(list.len(), |i: int| list[i]@)
}

/// Appending a session appends its view.
pub broadcast proof fn lemma_sessions_push(list: Seq<Session>, session: Session)
    ensures
        #[trigger] session_views(list.push(session)) == session_views(list).push(session@),
{
    assert(session_views(list.push(session)) =~= session_views(list).push(session@));
}

/// What one line of a log file says. A line that is no text says nothing.
pub open spec fn line_in(line: Seq<u8>) -> Option<LineView> {
    match bytes::text_in(line) {
        Some(s) => line_of(s),
        None => None,
    }
}

/// What the first lines of a log file say.
pub open spec fn lines_in(lines: Seq<Seq<u8>>) -> Seq<LineView>
    decreases lines.len(),
{
    if lines.len() == 0 {
        Seq::empty()
    } else {
        let before = lines_in(lines.drop_last());
        match line_in(lines.last()) {
            Some(line) => before.push(line),
            None => before,
        }
    }
}

/// Parses a log file.
///
/// Unparseable lines are skipped rather than failing the read: a log file outlives the tools that
/// wrote it, and it holds whatever a scriptlet printed.
pub fn read(contents: &[u8]) -> (r: Vec<Line>)
    ensures
        line_views(r@) == lines_in(bytes::byte_lines(contents@)),
{
    let lines = bytes::split_lines(contents);
    let ghost all = bytes::slices(lines@);
    let mut out: Vec<Line> = Vec::new();
    let mut i: usize = 0;
    assert(all.take(0) =~= Seq::<Seq<u8>>::empty());
    assert(line_views(out@) =~= Seq::<LineView>::empty());
    while i < lines.len()
        invariant
            i <= lines.len(),
            all == bytes::slices(lines@),
            line_views(out@) == lines_in(all.take(i as int)),
        decreases lines.len() - i,
    {
        let line = lines[i];
        let ghost before = line_views(out@);
        proof {
            let so_far = all.take(i + 1);
            assert(so_far.drop_last() =~= all.take(i as int));
            assert(so_far.last() == line@);
        }
        if let Some(s) = bytes::text_of(vstd::slice::slice_to_vec(line)) {
            if let Some(parsed) = Line::parse(s.as_str()) {
                out.push(parsed);
                assert(line_views(out@) =~= before.push(parsed@));
            }
        }
        i += 1;
    }
    assert(all.take(i as int) =~= all);
    out
}

/// The views of a list of lines.
pub open spec fn line_views(list: Seq<Line>) -> Seq<LineView> {
    Seq::new(list.len(), |i: int| list[i]@)
}

/// The command line a `Running '...'` message carries.
pub open spec fn command_of(message: Seq<char>) -> Option<Seq<char>> {
    match text::strip_prefix(message, "Running '"@) {
        Some(rest) => text::strip_suffix(rest, "'"@),
        None => None,
    }
}

/// The id a `transaction started` message carries: `Some(None)` where it carries none, `None` where
/// the message is no start.
pub open spec fn start_of(message: Seq<char>) -> Option<Option<Seq<char>>> {
    match text::strip_prefix(message, "transaction started"@) {
        Some(rest) => match text::strip_prefix(text::trim(rest), "(id "@) {
            Some(id) => Some(text::strip_suffix(id, ")"@)),
            None => Some(None),
        },
        None => None,
    }
}

/// The hook a `running '...'...` message names.
pub open spec fn hook_of(message: Seq<char>) -> Option<Seq<char>> {
    match text::strip_prefix(message, "running '"@) {
        Some(rest) => text::strip_suffix(rest, "'..."@),
        None => None,
    }
}

/// How far a reader of the log has come.
#[verifier::ext_equal]
pub struct Reading {
    /// The sessions that are over.
    pub done: Seq<SessionView>,
    /// The session that is running.
    pub open: Option<SessionView>,
    /// The command line the next session starts with.
    pub command: Option<Seq<char>>,
}

impl Reading {
    /// Where a reader starts.
    pub open spec fn start() -> Self {
        Reading { done: Seq::empty(), open: None, command: None }
    }

    /// The sessions that are over, and the one that is running.
    pub open spec fn sessions(self) -> Seq<SessionView> {
        match self.open {
            Some(session) => self.done.push(session),
            None => self.done,
        }
    }

    /// One line further.
    ///
    /// A command line waits for the next start. A start ends the session before it, which wrote
    /// no ending. Everything else belongs to the session that is running, or to none.
    pub open spec fn step(self, line: LineView) -> Self {
        if command_of(line.message) is Some {
            Reading { command: command_of(line.message), ..self }
        } else if start_of(line.message) is Some {
            Reading {
                done: self.sessions(),
                open: Some(
                    SessionView {
                        id: start_of(line.message)->0,
                        caller: line.caller,
                        started: line.timestamp,
                        finished: None,
                        command: self.command,
                        actions: Seq::empty(),
                        hooks: Seq::empty(),
                        outcome: OutcomeView::Interrupted,
                    },
                ),
                command: None,
            }
        } else {
            match self.open {
                None => self,
                Some(session) => if line.message == "transaction completed"@ {
                    Reading {
                        done: self.done.push(
                            SessionView {
                                finished: line.timestamp,
                                outcome: OutcomeView::Completed,
                                ..session
                            },
                        ),
                        open: None,
                        ..self
                    }
                } else if line.message == "transaction failed"@ {
                    Reading {
                        done: self.done.push(
                            SessionView {
                                finished: line.timestamp,
                                outcome: OutcomeView::Failed {
                                    reason: "the log records a failed transaction"@,
                                },
                                ..session
                            },
                        ),
                        open: None,
                        ..self
                    }
                } else if hook_of(line.message) is Some {
                    Reading {
                        open: Some(
                            SessionView {
                                hooks: session.hooks.push(hook_of(line.message)->0),
                                ..session
                            },
                        ),
                        ..self
                    }
                } else if action_of_message(line.message) is Some {
                    Reading {
                        open: Some(
                            SessionView {
                                actions: session.actions.push(action_of_message(line.message)->0),
                                ..session
                            },
                        ),
                        ..self
                    }
                } else {
                    self
                },
            }
        }
    }
}

/// Where a reader is after `lines`.
pub open spec fn reading(lines: Seq<LineView>) -> Reading
    decreases lines.len(),
{
    if lines.len() == 0 {
        Reading::start()
    } else {
        reading(lines.drop_last()).step(lines.last())
    }
}

/// The command line a `Running '...'` message carries.
fn running_command(message: &str) -> (r: Option<String>)
    ensures
        text::maybe(r) == command_of(message@),
{
    let all = text::chars(message);
    match text::after_text(all.as_slice(), "Running '") {
        Some(rest) => match text::before_text(rest, "'") {
            Some(command) => Some(text::text(command)),
            None => None,
        },
        None => None,
    }
}

/// The id a `transaction started` message carries.
fn started_id(message: &str) -> (r: Option<Option<String>>)
    ensures
        match r {
            Some(id) => start_of(message@) == Some(text::maybe(id)),
            None => start_of(message@) is None,
        },
{
    let all = text::chars(message);
    match text::after_text(all.as_slice(), "transaction started") {
        Some(rest) => match text::after_text(text::trimmed(rest), "(id ") {
            Some(id) => match text::before_text(id, ")") {
                Some(id) => Some(Some(text::text(id))),
                None => Some(None),
            },
            None => Some(None),
        },
        None => None,
    }
}

/// The hook a `running '...'...` message names.
fn hook_name(message: &str) -> (r: Option<String>)
    ensures
        text::maybe(r) == hook_of(message@),
{
    let all = text::chars(message);
    match text::after_text(all.as_slice(), "running '") {
        Some(rest) => match text::before_text(rest, "'...") {
            Some(name) => Some(text::text(name)),
            None => None,
        },
        None => None,
    }
}

/// The view of a session that may be running.
spec fn open_view(open: Option<Session>) -> Option<SessionView> {
    match open {
        Some(session) => Some(session@),
        None => None,
    }
}

/// Groups parsed lines into transactions, newest last.
///
/// A session runs from `transaction started` to `transaction completed` or `transaction failed`. A
/// `Running '...'` line seen before a session begins is attached to it as the command line. Lines
/// outside any session are dropped: they describe no transaction.
pub fn sessions(lines: &Vec<Line>) -> (r: Vec<Session>)
    ensures
        session_views(r@) == reading(line_views(lines@)).sessions(),
{
    broadcast use lemma_sessions_push;

    let mut done: Vec<Session> = Vec::new();
    let mut open: Option<Session> = None;
    let mut pending: Option<String> = None;
    let ghost views = line_views(lines@);
    let mut i: usize = 0;
    assert(session_views(done@) =~= Seq::<SessionView>::empty());
    assert(views.take(0) =~= Seq::<LineView>::empty());
    while i < lines.len()
        invariant
            i <= lines.len(),
            views == line_views(lines@),
            reading(views.take(i as int)) == (Reading {
                done: session_views(done@),
                open: open_view(open),
                command: text::maybe(pending),
            }),
        decreases lines.len() - i,
    {
        let line = &lines[i];
        let ghost was = reading(views.take(i as int));
        proof {
            assert(views.take(i + 1).drop_last() =~= views.take(i as int));
            assert(views.take(i + 1).last() == line@);
        }
        i += 1;
        let message = line.message.as_str();
        let command = running_command(message);
        if command.is_some() {
            pending = command;
            continue;
        }
        if let Some(id) = started_id(message) {
            if let Some(session) = open {
                done.push(session);
            }
            open =
            Some(
                Session {
                    id,
                    caller: line.caller.clone(),
                    started: line.timestamp,
                    finished: None,
                    command: pending,
                    actions: Vec::new(),
                    hooks: Vec::new(),
                    outcome: Outcome::Interrupted,
                },
            );
            pending = None;
            proof {
                let next = open->0@;
                assert(next.actions =~= Seq::<ActionView>::empty());
                assert(next.hooks =~= Seq::<Seq<char>>::empty());
                assert(open_view(open) == was.step(line@).open);
            }
            continue;
        }
        let mut session = match open {
            Some(session) => session,
            None => {
                open = None;
                continue;
            },
        };
        let ghost before = session@;
        open = None;
        if text::same(message, "transaction completed") {
            session.finished = line.timestamp;
            session.outcome = Outcome::Completed;
            done.push(session);
            assert(session@ == (SessionView {
                finished: line.timestamp,
                outcome: OutcomeView::Completed,
                ..before
            }));
        } else if text::same(message, "transaction failed") {
            session.finished = line.timestamp;
            session.outcome =
            Outcome::Failed { reason: "the log records a failed transaction".to_owned() };
            done.push(session);
            assert(session@ == (SessionView {
                finished: line.timestamp,
                outcome: OutcomeView::Failed { reason: "the log records a failed transaction"@ },
                ..before
            }));
        } else if let Some(hook) = hook_name(message) {
            session.hooks.push(hook);
            assert(session@ == (SessionView { hooks: before.hooks.push(hook@), ..before }));
            open = Some(session);
        } else if let Some(action) = line.action() {
            session.actions.push(action);
            assert(session@ == (SessionView { actions: before.actions.push(action@), ..before }));
            open = Some(session);
        } else {
            open = Some(session);
        }
    }
    assert(views.take(views.len() as int) =~= views);
    if let Some(session) = open {
        done.push(session);
    }
    done
}

/// Whether the name and the versions of an action can be told apart in a message: no name holds
/// ` (`, and no version that something follows holds ` -> ` or ends in the start of one.
pub open spec fn tellable(action: ActionView) -> bool {
    &&& text::first_text(action.name(), " ("@) is None
    &&& match action.previous() {
        Some(from) => text::first_text(from, " -> "@) is None && !text::ends_with(from, " ->"@),
        None => text::first_text(action.version(), " -> "@) is None,
    }
}

/// A log message reads back as the action it was written for.
pub proof fn a_message_reads_back(action: ActionView)
    requires
        tellable(action),
    ensures
        action_of_message(action.log_message()) == Some(action),
{
    reveal_strlit(" ");
    reveal_strlit(" (");
    reveal_strlit(")");
    reveal_strlit(" -> ");
    reveal_strlit(" ->");
    history::lemma_verbs(action);
    history::lemma_verbs_differ();
    let verb = action.verb();
    let name = action.name();
    let version = action.version();
    let versions = match action.previous() {
        Some(from) => from + " -> "@ + version,
        None => version,
    };
    let tail = versions + ")"@;
    let rest = name + " ("@ + tail;
    assert(action.log_message() =~= verb.push(' ') + rest);
    text::lemma_split_head(verb, ' ', rest);
    assert forall|k: int| 0 < k < 2 && k <= name.len() implies !text::starts_with(
        #[trigger] rest.skip(name.len() - k),
        " ("@,
    ) by {
        let here = rest.skip(name.len() - k);
        assert(here[1] == ' ');
        if text::starts_with(here, " ("@) {
            assert(here.take(2)[1] == '(');
        }
    }
    text::lemma_split_text_after(name, " ("@, tail);
    assert(tail.skip(tail.len() - 1) =~= ")"@);
    assert(tail.take(tail.len() - 1) =~= versions);
    match action.previous() {
        Some(from) => {
            let arrow = " -> "@;
            assert forall|k: int| 0 < k < 4 && k <= from.len() implies !text::starts_with(
                #[trigger] versions.skip(from.len() - k),
                arrow,
            ) by {
                let here = versions.skip(from.len() - k);
                if text::starts_with(here, arrow) {
                    let begin = here.take(4);
                    assert(begin == arrow);
                    if k == 1 {
                        assert(begin[1] == here[1] && here[1] == ' ');
                    } else if k == 2 {
                        assert(begin[2] == here[2] && here[2] == ' ');
                    } else {
                        assert(from.skip(from.len() - 3) =~= " ->"@) by {
                            assert(begin[0] == here[0] && begin[1] == here[1] && begin[2]
                                == here[2]);
                            assert(here[0] == from[from.len() - 3]);
                            assert(here[1] == from[from.len() - 2]);
                            assert(here[2] == from[from.len() - 1]);
                        }
                    }
                }
            }
            text::lemma_split_text_after(from, arrow, version);
        },
        None => {},
    }
}

/// What packages are called and how their versions are spelled can be told apart in a message.
pub proof fn words_can_be_told_apart(action: ActionView)
    requires
        action.plain(),
    ensures
        tellable(action),
{
    reveal_strlit(" (");
    reveal_strlit(" -> ");
    reveal_strlit(" ->");
    lemma_word_lacks_space(action.name());
    lemma_word_lacks_space(action.version());
    text::lemma_split_text_none(action.name(), " ("@, ' ');
    text::lemma_split_text_none(action.version(), " -> "@, ' ');
    if let Some(from) = action.previous() {
        lemma_word_lacks_space(from);
        text::lemma_split_text_none(from, " -> "@, ' ');
        if text::ends_with(from, " ->"@) {
            assert(from.skip(from.len() - 3)[0] == ' ');
            assert(from[from.len() - 3] == ' ');
        }
    }
}

/// A word holds no space.
proof fn lemma_word_lacks_space(word: Seq<char>)
    requires
        text::is_word(word),
    ensures
        !word.contains(' '),
{
    if word.contains(' ') {
        let i = choose|i: int| 0 <= i < word.len() && word[i] == ' ';
        assert(!text::is_space(word[i]));
    }
}

/// A readable timestamp stands in a line by itself, and reads back.
pub proof fn lemma_stamp(epoch: i64, offset: int)
    requires
        time_fmt::readable(epoch as int, offset),
    ensures
        text::is_word(time_fmt::stamp(epoch as int, offset)),
        text::one_liner(time_fmt::stamp(epoch as int, offset)),
        !time_fmt::stamp(epoch as int, offset).contains(' '),
        !time_fmt::stamp(epoch as int, offset).contains(']'),
        dated(time_fmt::stamp(epoch as int, offset)) == Some(epoch),
{
    let s = time_fmt::stamp(epoch as int, offset);
    time_fmt::a_timestamp_is_one_word(epoch as int, offset);
    time_fmt::a_rendered_timestamp_reads_back(epoch as int, offset);
    text::lemma_one_liner_word(s);
    lemma_word_lacks_space(s);
    if s.contains(']') {
        let i = choose|i: int| 0 <= i < s.len() && s[i] == ']';
        assert(time_fmt::is_stamp_char(s[i]));
    }
}

/// What a line holds reads back.
proof fn lemma_body_reads_back(stamp: Seq<char>, caller: Seq<char>, message: Seq<char>)
    requires
        !stamp.contains(']'),
        !caller.contains(']'),
    ensures
        line_of(line_body(stamp, caller, message)) == Some(
            LineView { timestamp: dated(stamp), caller, message },
        ),
{
    reveal_strlit("[");
    reveal_strlit("] [");
    reveal_strlit("] ");
    reveal_strlit(" [");
    let body = line_body(stamp, caller, message);
    let last = caller + "] "@ + message;
    let third = " ["@ + last;
    let second = stamp.push(']') + third;
    assert(body =~= "["@ + second);
    assert(body.take(1) =~= "["@);
    assert(body.skip(1) =~= second);
    text::lemma_split_head(stamp, ']', third);
    assert(third.take(2) =~= " ["@);
    assert(third.skip(2) =~= last);
    text::lemma_split_text(caller, "] "@, message, ']');
}

/// What a line holds fits on one line.
proof fn lemma_body_is_one_line(stamp: Seq<char>, caller: Seq<char>, message: Seq<char>)
    requires
        text::one_liner(stamp),
        text::one_liner(caller),
        text::one_liner(message),
    ensures
        text::one_liner(line_body(stamp, caller, message)),
{
    reveal_strlit("[");
    reveal_strlit("] [");
    reveal_strlit("] ");
    text::lemma_one_liner_add("["@, stamp);
    text::lemma_one_liner_add("["@ + stamp, "] ["@);
    text::lemma_one_liner_add("["@ + stamp + "] ["@, caller);
    text::lemma_one_liner_add("["@ + stamp + "] ["@ + caller, "] "@);
    text::lemma_one_liner_add("["@ + stamp + "] ["@ + caller + "] "@, message);
}

/// A written line is one line, and reads back with its time, its caller and its message.
pub proof fn a_log_line_reads_back(
    epoch: i64,
    offset: int,
    caller: Seq<char>,
    message: Seq<char>,
)
    requires
        time_fmt::readable(epoch as int, offset),
        text::one_liner(caller),
        !caller.contains(']'),
        text::one_liner(message),
    ensures
        text::lines(log_line(epoch as int, offset, caller, message)) == seq![
            line_body(time_fmt::stamp(epoch as int, offset), caller, message),
        ],
        line_of(line_body(time_fmt::stamp(epoch as int, offset), caller, message)) == Some(
            LineView { timestamp: Some(epoch), caller, message },
        ),
{
    let stamp = time_fmt::stamp(epoch as int, offset);
    lemma_stamp(epoch, offset);
    lemma_body_reads_back(stamp, caller, message);
    lemma_body_is_one_line(stamp, caller, message);
    lemma_line_alone(line_body(stamp, caller, message));
    if message.len() > 0 {
        assert(message.contains(message[message.len() - 1]));
    }
    assert(unterminated(message) == message);
}

/// One line and its line feed are one line.
proof fn lemma_line_alone(line: Seq<char>)
    requires
        text::one_liner(line),
    ensures
        text::lines(line.push('\n')) == seq![line],
{
    let list = seq![line];
    assert(list.drop_last() =~= Seq::<Seq<char>>::empty());
    assert(text::unlines(list.drop_last()) =~= Seq::<char>::empty());
    assert(text::unlines(list) =~= line.push('\n'));
    text::lemma_lines_of_unlines(list);
}

} // verus!
