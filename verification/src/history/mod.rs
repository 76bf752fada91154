//! A durable record of what transactions did.
//!
//! There are two records. `pacman.log` is shared with pacman: [`pacman_log`] writes libalpm's line
//! format and reads both tools' lines back. `piko-history` holds what that format cannot carry:
//! [`store`] appends one self-delimiting block per transaction to it. [`merge`] joins what the two
//! say into one history.
//!
//! Neither record can fail a transaction: what goes wrong with them is a [`Problem`], returned
//! beside the transaction's own result.

pub mod pacman_log;
pub mod recorder;
pub mod store;
pub mod time_fmt;

use vstd::prelude::*;
use vstd::string::*;

use crate::history::pacman_log::{Session, SessionView};
use crate::history::time_fmt::LocalOffset;
use crate::order;
use crate::text;
use crate::package;
use crate::package::{EntryName, EntryNameView};

verus! {

broadcast use crate::text::group_lists;

/// What one finished step did, in libalpm's own vocabulary.
#[derive(Clone, Debug, Eq, PartialEq)]
pub enum Action {
    /// Nothing of this name was installed before.
    Installed {
        /// The package name.
        name: String,
        /// The version now installed.
        version: String,
    },
    /// A lower version was installed before.
    Upgraded {
        /// The package name.
        name: String,
        /// The version that was installed before.
        from: String,
        /// The version now installed.
        to: String,
    },
    /// A higher version was installed before.
    Downgraded {
        /// The package name.
        name: String,
        /// The version that was installed before.
        from: String,
        /// The version now installed.
        to: String,
    },
    /// The same version was installed before.
    Reinstalled {
        /// The package name.
        name: String,
        /// The version, unchanged.
        version: String,
    },
    /// The package is no longer installed.
    Removed {
        /// The package name.
        name: String,
        /// The version that was removed.
        version: String,
    },
}

/// What an [`Action`] says.
pub enum ActionView {
    /// [`Action::Installed`].
    Installed {
        /// The package name.
        name: Seq<char>,
        /// The version now installed.
        version: Seq<char>,
    },
    /// [`Action::Upgraded`].
    Upgraded {
        /// The package name.
        name: Seq<char>,
        /// The version that was installed before.
        from: Seq<char>,
        /// The version now installed.
        to: Seq<char>,
    },
    /// [`Action::Downgraded`].
    Downgraded {
        /// The package name.
        name: Seq<char>,
        /// The version that was installed before.
        from: Seq<char>,
        /// The version now installed.
        to: Seq<char>,
    },
    /// [`Action::Reinstalled`].
    Reinstalled {
        /// The package name.
        name: Seq<char>,
        /// The version.
        version: Seq<char>,
    },
    /// [`Action::Removed`].
    Removed {
        /// The package name.
        name: Seq<char>,
        /// The version that was removed.
        version: Seq<char>,
    },
}

impl View for Action {
    type V = ActionView;

    open spec fn view(&self) -> ActionView {
        match self {
            Action::Installed { name, version } => ActionView::Installed {
                name: name@,
                version: version@,
            },
            Action::Upgraded { name, from, to } => ActionView::Upgraded {
                name: name@,
                from: from@,
                to: to@,
            },
            Action::Downgraded { name, from, to } => ActionView::Downgraded {
                name: name@,
                from: from@,
                to: to@,
            },
            Action::Reinstalled { name, version } => ActionView::Reinstalled {
                name: name@,
                version: version@,
            },
            Action::Removed { name, version } => ActionView::Removed {
                name: name@,
                version: version@,
            },
        }
    }
}

impl ActionView {
    /// The verb, as both records spell it.
    pub open spec fn verb(self) -> Seq<char> {
        match self {
            ActionView::Installed { .. } => "installed"@,
            ActionView::Upgraded { .. } => "upgraded"@,
            ActionView::Downgraded { .. } => "downgraded"@,
            ActionView::Reinstalled { .. } => "reinstalled"@,
            ActionView::Removed { .. } => "removed"@,
        }
    }

    /// The package this action is about.
    pub open spec fn name(self) -> Seq<char> {
        match self {
            ActionView::Installed { name, .. } => name,
            ActionView::Upgraded { name, .. } => name,
            ActionView::Downgraded { name, .. } => name,
            ActionView::Reinstalled { name, .. } => name,
            ActionView::Removed { name, .. } => name,
        }
    }

    /// The version the package is at after this action: the version removed, for a removal.
    pub open spec fn version(self) -> Seq<char> {
        match self {
            ActionView::Installed { version, .. } => version,
            ActionView::Upgraded { to, .. } => to,
            ActionView::Downgraded { to, .. } => to,
            ActionView::Reinstalled { version, .. } => version,
            ActionView::Removed { version, .. } => version,
        }
    }

    /// The version installed before this action, when it replaced one by another.
    pub open spec fn previous(self) -> Option<Seq<char>> {
        match self {
            ActionView::Upgraded { from, .. } => Some(from),
            ActionView::Downgraded { from, .. } => Some(from),
            _ => None,
        }
    }

    /// The `pacman.log` message: `verb name (version)` or `verb name (from -> to)`.
    pub open spec fn log_message(self) -> Seq<char> {
        let versions = match self.previous() {
            Some(from) => from + " -> "@ + self.version(),
            None => self.version(),
        };
        self.verb() + " "@ + self.name() + " ("@ + versions + ")"@
    }

    /// The history store's line: `verb name version` or `verb name from to`.
    pub open spec fn store_line(self) -> Seq<char> {
        let versions = match self.previous() {
            Some(from) => from + " "@ + self.version(),
            None => self.version(),
        };
        self.verb() + " "@ + self.name() + " "@ + versions
    }

    /// Whether the name and the versions are words, as a package's are.
    pub open spec fn plain(self) -> bool {
        &&& text::is_word(self.name())
        &&& text::is_word(self.version())
        &&& self.previous() is Some ==> text::is_word(self.previous()->0)
    }
}

/// The action an install step performed.
///
/// Two versions that cannot be ordered count as the same version.
pub open spec fn install_action(entry: EntryNameView, replaced: Option<EntryNameView>) -> ActionView {
    match replaced {
        None => ActionView::Installed { name: entry.name, version: entry.version },
        Some(previous) => match package::ordered(entry.version, previous.version) {
            Some(sign) => if sign > 0 {
                ActionView::Upgraded { name: entry.name, from: previous.version, to: entry.version }
            } else if sign < 0 {
                ActionView::Downgraded {
                    name: entry.name,
                    from: previous.version,
                    to: entry.version,
                }
            } else {
                ActionView::Reinstalled { name: entry.name, version: entry.version }
            },
            None => ActionView::Reinstalled { name: entry.name, version: entry.version },
        },
    }
}

/// What a line of the store says, where it is an action.
pub open spec fn action_of_line(s: Seq<char>) -> Option<ActionView> {
    let w = text::words(s);
    if w.len() < 3 {
        None
    } else if w.len() == 3 {
        if w[0] == "installed"@ {
            Some(ActionView::Installed { name: w[1], version: w[2] })
        } else if w[0] == "reinstalled"@ {
            Some(ActionView::Reinstalled { name: w[1], version: w[2] })
        } else if w[0] == "removed"@ {
            Some(ActionView::Removed { name: w[1], version: w[2] })
        } else {
            None
        }
    } else if w[0] == "upgraded"@ {
        Some(ActionView::Upgraded { name: w[1], from: w[2], to: w[3] })
    } else if w[0] == "downgraded"@ {
        Some(ActionView::Downgraded { name: w[1], from: w[2], to: w[3] })
    } else {
        None
    }
}

impl Action {
    /// The action an install step performed, from the entry written and the entry replaced.
    ///
    /// The direction is a comparison of versions, not of texts: `1.10-1` is above `1.9-1`. Where
    /// the versions cannot be compared, the step is reported as a reinstallation of the new one.
    pub fn installed(entry: &EntryName, replaced: Option<&EntryName>) -> (r: Self)
        ensures
            r@ == install_action(
                entry@,
                match replaced {
                    Some(previous) => Some(previous@),
                    None => None,
                },
            ),
    {
        match replaced {
            None => Action::Installed { name: entry.name.clone(), version: entry.version.clone() },
            Some(previous) => {
                let sign = package::order(entry.version.as_str(), previous.version.as_str());
                Action::replacing(entry, previous, sign)
            },
        }
    }

    /// The action of replacing `previous` by `entry`, given how their versions are ordered.
    pub fn replacing(entry: &EntryName, previous: &EntryName, sign: Option<i8>) -> (r: Self)
        ensures
            r@ == if sign is Some && sign->0 > 0 {
                ActionView::Upgraded {
                    name: entry.name@,
                    from: previous.version@,
                    to: entry.version@,
                }
            } else if sign is Some && sign->0 < 0 {
                ActionView::Downgraded {
                    name: entry.name@,
                    from: previous.version@,
                    to: entry.version@,
                }
            } else {
                ActionView::Reinstalled { name: entry.name@, version: entry.version@ }
            },
    {
        let name = entry.name.clone();
        let from = previous.version.clone();
        let to = entry.version.clone();
        match sign {
            Some(sign) => if sign > 0 {
                Action::Upgraded { name, from, to }
            } else if sign < 0 {
                Action::Downgraded { name, from, to }
            } else {
                Action::Reinstalled { name, version: to }
            },
            None => Action::Reinstalled { name, version: to },
        }
    }

    /// The action a removal step performed.
    pub fn removed(entry: &EntryName) -> (r: Self)
        ensures
            r@ == (ActionView::Removed { name: entry.name@, version: entry.version@ }),
    {
        Action::Removed { name: entry.name.clone(), version: entry.version.clone() }
    }

    /// The verb, as both records spell it.
    pub fn verb(&self) -> (r: &'static str)
        ensures
            r@ == self@.verb(),
    {
        match self {
            Action::Installed { .. } => "installed",
            Action::Upgraded { .. } => "upgraded",
            Action::Downgraded { .. } => "downgraded",
            Action::Reinstalled { .. } => "reinstalled",
            Action::Removed { .. } => "removed",
        }
    }

    /// The package this action is about.
    pub fn name(&self) -> (r: &str)
        ensures
            r@ == self@.name(),
    {
        match self {
            Action::Installed { name, .. } => name.as_str(),
            Action::Upgraded { name, .. } => name.as_str(),
            Action::Downgraded { name, .. } => name.as_str(),
            Action::Reinstalled { name, .. } => name.as_str(),
            Action::Removed { name, .. } => name.as_str(),
        }
    }

    /// The version the package is at after this action: the version removed, for a removal.
    pub fn version(&self) -> (r: &str)
        ensures
            r@ == self@.version(),
    {
        match self {
            Action::Installed { version, .. } => version.as_str(),
            Action::Upgraded { to, .. } => to.as_str(),
            Action::Downgraded { to, .. } => to.as_str(),
            Action::Reinstalled { version, .. } => version.as_str(),
            Action::Removed { version, .. } => version.as_str(),
        }
    }

    /// The version installed before this action, when it replaced one by another.
    pub fn previous(&self) -> (r: Option<&str>)
        ensures
            text::maybe_str(r) == self@.previous(),
    {
        match self {
            Action::Upgraded { from, .. } => Some(from.as_str()),
            Action::Downgraded { from, .. } => Some(from.as_str()),
            _ => None,
        }
    }

    /// The `pacman.log` message, exactly as libalpm spells it.
    pub fn log_message(&self) -> (r: String)
        ensures
            r@ == self@.log_message(),
    {
        let mut out = self.verb().to_owned();
        out.push_str(" ");
        out.push_str(self.name());
        out.push_str(" (");
        let ghost head = out@;
        match self.previous() {
            Some(from) => {
                out.push_str(from);
                out.push_str(" -> ");
                out.push_str(self.version());
                assert(out@ =~= head + (from@ + " -> "@ + self@.version()));
            },
            None => {
                out.push_str(self.version());
            },
        }
        out.push_str(")");
        out
    }

    /// The history store's line for this action.
    pub fn store_line(&self) -> (r: String)
        ensures
            r@ == self@.store_line(),
    {
        let mut out = self.verb().to_owned();
        out.push_str(" ");
        out.push_str(self.name());
        out.push_str(" ");
        let ghost head = out@;
        match self.previous() {
            Some(from) => {
                out.push_str(from);
                out.push_str(" ");
                out.push_str(self.version());
                assert(out@ =~= head + (from@ + " "@ + self@.version()));
            },
            None => {
                out.push_str(self.version());
            },
        }
        out
    }

    /// Parses what [`Action::store_line`] wrote.
    pub fn parse_store_line(line: &str) -> (r: Option<Self>)
        ensures
            match r {
                Some(action) => action_of_line(line@) == Some(action@),
                None => action_of_line(line@) is None,
            },
    {
        let all = text::chars(line);
        let w = text::split_words(all.as_slice());
        let ghost views = text::pieces(w@);
        if w.len() < 3 {
            return None;
        }
        assert(views[0] == w@[0]@ && views[1] == w@[1]@ && views[2] == w@[2]@);
        let verb = w[0];
        let name = text::text(w[1]);
        let first = text::text(w[2]);
        if w.len() == 3 {
            if text::spells(verb, "installed") {
                Some(Action::Installed { name, version: first })
            } else if text::spells(verb, "reinstalled") {
                Some(Action::Reinstalled { name, version: first })
            } else if text::spells(verb, "removed") {
                Some(Action::Removed { name, version: first })
            } else {
                None
            }
        } else {
            assert(views[3] == w@[3]@);
            let to = text::text(w[3]);
            if text::spells(verb, "upgraded") {
                Some(Action::Upgraded { name, from: first, to })
            } else if text::spells(verb, "downgraded") {
                Some(Action::Downgraded { name, from: first, to })
            } else {
                None
            }
        }
    }
}

/// Every verb is a word.
pub proof fn lemma_verbs(action: ActionView)
    ensures
        text::is_word(action.verb()),
        !action.verb().contains(' '),
{
    reveal_strlit("installed");
    reveal_strlit("upgraded");
    reveal_strlit("downgraded");
    reveal_strlit("reinstalled");
    reveal_strlit("removed");
}

/// No two verbs are spelled the same way.
pub proof fn lemma_verbs_differ()
    ensures
        "installed"@ != "upgraded"@,
        "installed"@ != "downgraded"@,
        "installed"@ != "reinstalled"@,
        "installed"@ != "removed"@,
        "upgraded"@ != "downgraded"@,
        "upgraded"@ != "reinstalled"@,
        "upgraded"@ != "removed"@,
        "downgraded"@ != "reinstalled"@,
        "downgraded"@ != "removed"@,
        "reinstalled"@ != "removed"@,
{
    reveal_strlit("installed");
    reveal_strlit("upgraded");
    reveal_strlit("downgraded");
    reveal_strlit("reinstalled");
    reveal_strlit("removed");
    assert("installed"@.len() == 9 && "upgraded"@.len() == 8 && "downgraded"@.len() == 10);
    assert("reinstalled"@.len() == 11 && "removed"@.len() == 7);
}

/// A store line reads back as the action it was written for.
pub proof fn a_store_line_reads_back(action: ActionView)
    requires
        action.plain(),
    ensures
        action_of_line(action.store_line()) == Some(action),
        text::one_liner(action.store_line()),
{
    reveal_strlit(" ");
    lemma_verbs(action);
    lemma_verbs_differ();
    let verb = action.verb();
    let name = action.name();
    let version = action.version();
    let line = action.store_line();
    match action.previous() {
        Some(from) => {
            let tail = from.push(' ') + version;
            let rest = name.push(' ') + tail;
            assert(line =~= verb.push(' ') + rest);
            text::lemma_words_head(verb, rest);
            text::lemma_words_head(name, tail);
            text::lemma_words_head(from, version);
            text::lemma_words_whole(version);
            assert(text::words(line) =~= seq![verb, name, from, version]);
        },
        None => {
            let rest = name.push(' ') + version;
            assert(line =~= verb.push(' ') + rest);
            text::lemma_words_head(verb, rest);
            text::lemma_words_head(name, version);
            text::lemma_words_whole(version);
            assert(text::words(line) =~= seq![verb, name, version]);
        },
    }
    lemma_store_line_flat(action);
}

/// A plain action's store line is one line.
proof fn lemma_store_line_flat(action: ActionView)
    requires
        action.plain(),
    ensures
        text::one_liner(action.store_line()),
{
    reveal_strlit(" ");
    lemma_verbs(action);
    let line = action.store_line();
    let head = action.verb() + " "@ + action.name() + " "@;
    let tail = match action.previous() {
        Some(from) => from + " "@ + action.version(),
        None => action.version(),
    };
    assert(line =~= head + tail);
    let a = action.verb().len() as int;
    let b = action.name().len() as int;
    assert forall|i: int| 0 <= i < head.len() implies #[trigger] head[i] != '\n' && head[i]
        != '\r' by {
        if i < a {
            assert(head[i] == action.verb()[i]);
        } else if i == a {
            assert(head[i] == ' ');
        } else if i < a + 1 + b {
            assert(head[i] == action.name()[i - a - 1]);
        } else {
            assert(head[i] == ' ');
        }
    }
    assert forall|i: int| 0 <= i < tail.len() implies #[trigger] tail[i] != '\n' && tail[i]
        != '\r' by {
        match action.previous() {
            Some(from) => {
                if i < from.len() {
                    assert(tail[i] == from[i]);
                } else if i == from.len() {
                    assert(tail[i] == ' ');
                } else {
                    assert(tail[i] == action.version()[i - from.len() - 1]);
                }
            },
            None => {
                assert(tail[i] == action.version()[i]);
            },
        }
    }
    assert forall|i: int| 0 <= i < line.len() implies #[trigger] line[i] != '\n' && line[i]
        != '\r' by {
        if i < head.len() {
            assert(line[i] == head[i]);
        } else {
            assert(line[i] == tail[i - head.len()]);
        }
    }
}

/// The views of a list of actions.
pub open spec fn action_views(list: Seq<Action>) -> Seq<ActionView> {
    Seq::new(list.len(), |i: int| list[i]@)
}

/// Appending an action appends its view.
pub broadcast proof fn lemma_actions_push(list: Seq<Action>, action: Action)
    ensures
        #[trigger] action_views(list.push(action)) == action_views(list).push(action@),
{
    assert(action_views(list.push(action)) =~= action_views(list).push(action@));
}

/// How a transaction ended.
#[derive(Clone, Debug, Eq, PartialEq)]
pub enum Outcome {
    /// Every step ran and the post-transaction hooks were given their turn.
    Completed,
    /// The user stopped it.
    Cancelled,
    /// A step failed, or a hook refused the run.
    Failed {
        /// What went wrong, as the error described it.
        reason: String,
    },
    /// The record was found unfinished: the process did not live to write an ending.
    Interrupted,
}

/// What an [`Outcome`] says.
pub enum OutcomeView {
    /// [`Outcome::Completed`].
    Completed,
    /// [`Outcome::Cancelled`].
    Cancelled,
    /// [`Outcome::Failed`].
    Failed {
        /// What went wrong.
        reason: Seq<char>,
    },
    /// [`Outcome::Interrupted`].
    Interrupted,
}

impl View for Outcome {
    type V = OutcomeView;

    open spec fn view(&self) -> OutcomeView {
        match self {
            Outcome::Completed => OutcomeView::Completed,
            Outcome::Cancelled => OutcomeView::Cancelled,
            Outcome::Failed { reason } => OutcomeView::Failed { reason: reason@ },
            Outcome::Interrupted => OutcomeView::Interrupted,
        }
    }
}

impl OutcomeView {
    /// The word the store writes for this outcome.
    pub open spec fn word(self) -> Seq<char> {
        match self {
            OutcomeView::Completed => "completed"@,
            OutcomeView::Cancelled => "cancelled"@,
            OutcomeView::Failed { .. } => "failed"@,
            OutcomeView::Interrupted => "interrupted"@,
        }
    }
}

impl Outcome {
    /// The word the store writes for this outcome.
    pub fn as_str(&self) -> (r: &'static str)
        ensures
            r@ == self@.word(),
    {
        match self {
            Outcome::Completed => "completed",
            Outcome::Cancelled => "cancelled",
            Outcome::Failed { .. } => "failed",
            Outcome::Interrupted => "interrupted",
        }
    }
}

/// A problem writing one of the records.
#[derive(Clone, Debug, Eq, PartialEq)]
pub enum Problem {
    /// The `LogFile` could not be opened or written.
    Log {
        /// The `LogFile` that was tried.
        path: String,
        /// The underlying failure.
        reason: String,
    },
    /// The history store could not be appended to.
    Store {
        /// The history file that was tried.
        path: String,
        /// The underlying failure.
        reason: String,
    },
}

impl Problem {
    /// The words for the problem.
    pub open spec fn words(self) -> Seq<char> {
        match self {
            Problem::Log { path, reason } => "cannot write the transaction log at "@ + path@ + ": "@
                + reason@,
            Problem::Store { path, reason } => "cannot write the transaction history at "@ + path@
                + ": "@ + reason@,
        }
    }

    /// The words for the problem.
    pub fn message(&self) -> (r: String)
        ensures
            r@ == self.words(),
    {
        match self {
            Problem::Log { path, reason } => "cannot write the transaction log at ".to_owned().concat(
                path.as_str(),
            ).concat(": ").concat(reason.as_str()),
            Problem::Store { path, reason } =>
                "cannot write the transaction history at ".to_owned().concat(path.as_str()).concat(
                ": ",
            ).concat(reason.as_str()),
        }
    }
}

/// One transaction, as the history store records it.
#[derive(Clone, Debug, Eq, PartialEq)]
pub struct Entry {
    /// Identifies this transaction, and joins its store block to its `pacman.log` lines.
    pub id: String,
    /// When it started, in epoch seconds.
    pub started: i64,
    /// When it ended, in epoch seconds. Absent for an entry that never ended.
    pub finished: Option<i64>,
    /// The installation root it targeted.
    pub root: String,
    /// The database path it targeted.
    pub dbpath: String,
    /// The command line that asked for it, when the caller supplied one.
    pub command: Option<String>,
    /// What each step did, in the order the steps ran.
    pub actions: Vec<Action>,
    /// `.pacnew` files left behind.
    pub pacnew: Vec<String>,
    /// `.pacsave` files left behind.
    pub pacsave: Vec<String>,
    /// The hooks that ran, in order, both phases together.
    pub hooks: Vec<String>,
    /// How it ended.
    pub outcome: Outcome,
}

/// What an [`Entry`] says.
#[verifier::ext_equal]
pub struct EntryView {
    /// Identifies the transaction.
    pub id: Seq<char>,
    /// When it started.
    pub started: i64,
    /// When it ended.
    pub finished: Option<i64>,
    /// The installation root.
    pub root: Seq<char>,
    /// The database path.
    pub dbpath: Seq<char>,
    /// The command line.
    pub command: Option<Seq<char>>,
    /// What each step did.
    pub actions: Seq<ActionView>,
    /// `.pacnew` files left behind.
    pub pacnew: Seq<Seq<char>>,
    /// `.pacsave` files left behind.
    pub pacsave: Seq<Seq<char>>,
    /// The hooks that ran.
    pub hooks: Seq<Seq<char>>,
    /// How it ended.
    pub outcome: OutcomeView,
}

impl View for Entry {
    type V = EntryView;

    open spec fn view(&self) -> EntryView {
        EntryView {
            id: self.id@,
            started: self.started,
            finished: self.finished,
            root: self.root@,
            dbpath: self.dbpath@,
            command: text::maybe(self.command),
            actions: action_views(self.actions@),
            pacnew: text::texts(self.pacnew@),
            pacsave: text::texts(self.pacsave@),
            hooks: text::texts(self.hooks@),
            outcome: self.outcome@,
        }
    }
}

/// The views of a list of entries.
pub open spec fn entry_views(list: Seq<Entry>) -> Seq<EntryView> {
    Seq::new(list.len(), |i: int| list[i]@)
}

/// Appending an entry appends its view.
pub broadcast proof fn lemma_entries_push(list: Seq<Entry>, entry: Entry)
    ensures
        #[trigger] entry_views(list.push(entry)) == entry_views(list).push(entry@),
{
    assert(entry_views(list.push(entry)) =~= entry_views(list).push(entry@));
}

/// Where a transaction should record what it does.
///
/// Configuration only. Both paths are optional, and the default records nothing.
#[derive(Clone, Debug)]
pub struct Recording {
    /// The `LogFile` to append `[PIKO]` lines to.
    pub log_file: Option<String>,
    /// The history store to append a block to. Conventionally `<dbpath>/piko-history`.
    pub store: Option<String>,
    /// The command line to record, as the user typed it.
    pub command: Option<String>,
    /// The offset timestamps are rendered in.
    pub offset: LocalOffset,
}

impl Recording {
    /// Records into `<dbpath>/piko-history` and, when `log_file` names one, into that log.
    pub fn new(dbpath: &str, log_file: Option<String>, offset: LocalOffset) -> (r: Self)
        ensures
            r.log_file == log_file,
            text::maybe(r.store) == Some(store::history_path(dbpath@)),
            r.command is None,
            r.offset == offset,
    {
        Recording { log_file, store: Some(store::path(dbpath)), command: None, offset }
    }

    /// Records `command` as the command line that asked for the transaction.
    pub fn command(self, command: String) -> (r: Self)
        ensures
            r == (Recording { command: Some(command), ..self }),
    {
        Recording {
            log_file: self.log_file,
            store: self.store,
            command: Some(command),
            offset: self.offset,
        }
    }
}

impl Default for Recording {
    /// Records nothing.
    fn default() -> (r: Self)
        ensures
            r.log_file is None,
            r.store is None,
            r.command is None,
            r.offset@ == 0,
    {
        Recording { log_file: None, store: None, command: None, offset: LocalOffset::utc() }
    }
}

/// The line a front end appends to the log, and the log it goes to.
///
/// `None` where the recording names no log.
pub fn note(recording: &Recording, epoch: i64, message: &str) -> (r: Option<(String, String)>)
    ensures
        match r {
            Some((path, line)) => text::maybe(recording.log_file) == Some(path@) && line@
                == pacman_log::log_line(
                epoch as int,
                recording.offset@,
                pacman_log::CALLER@,
                message@,
            ),
            None => recording.log_file is None,
        },
{
    match &recording.log_file {
        Some(path) => Some(
            (
                path.clone(),
                pacman_log::line_at(epoch, recording.offset, pacman_log::CALLER, message),
            ),
        ),
        None => None,
    }
}

/// One transaction as a reader sees it, from whichever records described it.
#[derive(Clone, Debug, Eq, PartialEq)]
pub struct Record {
    /// The transaction's id, when whoever wrote it stamped one.
    pub id: Option<String>,
    /// The tool that ran it, as the log's caller field named it.
    pub tool: String,
    /// When it started.
    pub started: Option<i64>,
    /// When it ended.
    pub finished: Option<i64>,
    /// The command line, when either record held one.
    pub command: Option<String>,
    /// What it did, in order.
    pub actions: Vec<Action>,
    /// The hooks it ran, in order.
    pub hooks: Vec<String>,
    /// `.pacnew` files it left. Only the store records these.
    pub pacnew: Vec<String>,
    /// `.pacsave` files it left. Only the store records these.
    pub pacsave: Vec<String>,
    /// How it ended.
    pub outcome: Outcome,
    /// Whether the store described this transaction, as well as the log.
    pub detailed: bool,
}

/// What a [`Record`] says.
#[verifier::ext_equal]
pub struct RecordView {
    /// The transaction's id.
    pub id: Option<Seq<char>>,
    /// The tool that ran it.
    pub tool: Seq<char>,
    /// When it started.
    pub started: Option<i64>,
    /// When it ended.
    pub finished: Option<i64>,
    /// The command line.
    pub command: Option<Seq<char>>,
    /// What it did.
    pub actions: Seq<ActionView>,
    /// The hooks it ran.
    pub hooks: Seq<Seq<char>>,
    /// `.pacnew` files it left.
    pub pacnew: Seq<Seq<char>>,
    /// `.pacsave` files it left.
    pub pacsave: Seq<Seq<char>>,
    /// How it ended.
    pub outcome: OutcomeView,
    /// Whether the store described it.
    pub detailed: bool,
}

impl View for Record {
    type V = RecordView;

    open spec fn view(&self) -> RecordView {
        RecordView {
            id: text::maybe(self.id),
            tool: self.tool@,
            started: self.started,
            finished: self.finished,
            command: text::maybe(self.command),
            actions: action_views(self.actions@),
            hooks: text::texts(self.hooks@),
            pacnew: text::texts(self.pacnew@),
            pacsave: text::texts(self.pacsave@),
            outcome: self.outcome@,
            detailed: self.detailed,
        }
    }
}

/// The views of a list of records.
pub open spec fn record_views(list: Seq<Record>) -> Seq<RecordView> {
    Seq::new(list.len(), |i: int| list[i]@)
}

impl RecordView {
    /// Whether the transaction touched a package named in `names`. An empty list names them all.
    pub open spec fn touches(self, names: Seq<Seq<char>>) -> bool {
        names.len() == 0 || exists|i: int|
            0 <= i < self.actions.len() && names.contains((#[trigger] self.actions[i]).name())
    }

    /// What the records are ordered by: undated ones come first.
    pub open spec fn key(self) -> i64 {
        match self.started {
            Some(at) => at,
            None => i64::MIN,
        }
    }
}

impl Record {
    /// Whether this transaction touched a package named in `names`.
    pub fn touches(&self, names: &Vec<String>) -> (r: bool)
        ensures
            r == self@.touches(text::texts(names@)),
    {
        if names.len() == 0 {
            return true;
        }
        let ghost actions = self@.actions;
        let mut i: usize = 0;
        while i < self.actions.len()
            invariant
                i <= self.actions.len(),
                actions == action_views(self.actions@),
                actions == self@.actions,
                names@.len() > 0,
                forall|k: int|
                    0 <= k < i ==> !text::texts(names@).contains((#[trigger] actions[k]).name()),
            decreases self.actions.len() - i,
        {
            assert(actions[i as int] == self.actions@[i as int]@);
            if crate::conflict::filesystem::named(names, self.actions[i].name()) {
                assert(text::texts(names@).contains(self@.actions[i as int].name()));
                return true;
            }
            i += 1;
        }
        false
    }

    /// What the records are ordered by: undated ones come first.
    fn key(&self) -> (r: i64)
        ensures
            r == self@.key(),
    {
        match self.started {
            Some(at) => at,
            None => i64::MIN,
        }
    }
}

/// Which transactions [`merge`] should return.
#[derive(Clone, Debug)]
pub struct Query {
    /// Keep at most this many, newest. `None` keeps every one.
    pub last: Option<usize>,
    /// Keep only transactions touching one of these packages. Empty keeps every one.
    pub packages: Vec<String>,
    /// Keep only transactions that started at or after this epoch second.
    pub since: Option<i64>,
    /// Keep only transactions that started at or before this epoch second.
    pub until: Option<i64>,
}

impl Default for Query {
    /// Keeps everything.
    fn default() -> (r: Self)
        ensures
            r.last is None,
            r.packages@.len() == 0,
            r.since is None,
            r.until is None,
    {
        Query { last: None, packages: Vec::new(), since: None, until: None }
    }
}

impl Query {
    /// Whether the query asks for a record. An undated record is inside every span.
    pub open spec fn wants(self, record: RecordView) -> bool {
        &&& record.touches(text::texts(self.packages@))
        &&& self.since is Some && record.started is Some ==> record.started->0 >= self.since->0
        &&& self.until is Some && record.started is Some ==> record.started->0 <= self.until->0
    }

    /// Whether the query asks for a record.
    fn asks_for(&self, record: &Record) -> (r: bool)
        ensures
            r == self.wants(record@),
    {
        if !record.touches(&self.packages) {
            return false;
        }
        if let (Some(since), Some(at)) = (self.since, record.started) {
            if at < since {
                return false;
            }
        }
        if let (Some(until), Some(at)) = (self.until, record.started) {
            if at > until {
                return false;
            }
        }
        true
    }
}

// ---------------------------------------------------------------------------------------------
// One history out of two records

/// One log session, with the store's detail folded in where there is any.
///
/// The store holds values where the log holds a rendering of them, so what the store says is
/// taken whole. Only the times come from the log where it has them.
pub open spec fn joined(session: SessionView, detail: Option<EntryView>) -> RecordView {
    match detail {
        None => RecordView {
            id: session.id,
            tool: session.caller,
            started: session.started,
            finished: session.finished,
            command: session.command,
            actions: session.actions,
            hooks: session.hooks,
            pacnew: Seq::empty(),
            pacsave: Seq::empty(),
            outcome: session.outcome,
            detailed: false,
        },
        Some(detail) => RecordView {
            id: Some(detail.id),
            tool: session.caller,
            started: if session.started is Some {
                session.started
            } else {
                Some(detail.started)
            },
            finished: if session.finished is Some {
                session.finished
            } else {
                detail.finished
            },
            command: if detail.command is Some {
                detail.command
            } else {
                session.command
            },
            actions: detail.actions,
            hooks: detail.hooks,
            pacnew: detail.pacnew,
            pacsave: detail.pacsave,
            outcome: detail.outcome,
            detailed: true,
        },
    }
}

/// A transaction that only the store knows.
pub open spec fn store_only(entry: EntryView) -> RecordView {
    RecordView {
        id: Some(entry.id),
        tool: pacman_log::CALLER@,
        started: Some(entry.started),
        finished: entry.finished,
        command: entry.command,
        actions: entry.actions,
        hooks: entry.hooks,
        pacnew: entry.pacnew,
        pacsave: entry.pacsave,
        outcome: entry.outcome,
        detailed: true,
    }
}

/// Where the first entry with the id is, or the number of entries where there is none.
pub open spec fn index_of_id(pool: Seq<EntryView>, id: Seq<char>) -> int
    decreases pool.len(),
{
    if pool.len() == 0 || pool[0].id == id {
        0
    } else {
        1 + index_of_id(pool.skip(1), id)
    }
}

/// `pool` without the first entry with the id.
pub open spec fn without_id(pool: Seq<EntryView>, id: Seq<char>) -> Seq<EntryView> {
    let i = index_of_id(pool, id);
    if i < pool.len() {
        pool.remove(i)
    } else {
        pool
    }
}

/// The entries, each id once: of two entries with one id the later stays.
pub open spec fn latest(entries: Seq<EntryView>) -> Seq<EntryView>
    decreases entries.len(),
{
    if entries.len() == 0 {
        Seq::empty()
    } else {
        without_id(latest(entries.drop_last()), entries.last().id).push(entries.last())
    }
}

/// The records of the sessions, each with the entry of its id, and the entries no session took.
pub open spec fn join_all(sessions: Seq<SessionView>, pool: Seq<EntryView>) -> (
    Seq<RecordView>,
    Seq<EntryView>,
)
    decreases sessions.len(),
{
    if sessions.len() == 0 {
        (Seq::empty(), pool)
    } else {
        let (records, left) = join_all(sessions.drop_last(), pool);
        let session = sessions.last();
        match session.id {
            Some(id) => {
                let i = index_of_id(left, id);
                if i < left.len() {
                    (records.push(joined(session, Some(left[i]))), left.remove(i))
                } else {
                    (records.push(joined(session, None)), left)
                }
            },
            None => (records.push(joined(session, None)), left),
        }
    }
}

/// Every transaction either record knows: the log's in its order, then the store's.
pub open spec fn all_records(sessions: Seq<SessionView>, entries: Seq<EntryView>) -> Seq<RecordView> {
    let (records, left) = join_all(sessions, latest(entries));
    records + left.map_values(|e: EntryView| store_only(e))
}

/// `r` put after every record of `s` that it does not precede, counted from the end.
pub open spec fn insert_by_key(s: Seq<RecordView>, r: RecordView) -> Seq<RecordView>
    decreases s.len(),
{
    if s.len() == 0 || s.last().key() <= r.key() {
        s.push(r)
    } else {
        insert_by_key(s.drop_last(), r).push(s.last())
    }
}

/// The records, oldest first. Records of one second keep their order.
pub open spec fn by_time(s: Seq<RecordView>) -> Seq<RecordView>
    decreases s.len(),
{
    if s.len() == 0 {
        Seq::empty()
    } else {
        insert_by_key(by_time(s.drop_last()), s.last())
    }
}

/// The last `n` values of `s`, or all of them.
pub open spec fn newest<A>(s: Seq<A>, n: Option<usize>) -> Seq<A> {
    match n {
        Some(n) => if s.len() > n {
            s.skip(s.len() - n)
        } else {
            s
        },
        None => s,
    }
}

/// What [`merge`] returns.
pub open spec fn history_of(
    sessions: Seq<SessionView>,
    entries: Seq<EntryView>,
    query: Query,
) -> Seq<RecordView> {
    newest(
        by_time(all_records(sessions, entries)).filter(|r: RecordView| query.wants(r)),
        query.last,
    )
}

/// What [`index_of_id`] is, without recursion.
proof fn lemma_index_of_id(pool: Seq<EntryView>, id: Seq<char>, i: int)
    requires
        0 <= i <= pool.len(),
        forall|j: int| 0 <= j < i ==> (#[trigger] pool[j]).id != id,
        i < pool.len() ==> pool[i].id == id,
    ensures
        index_of_id(pool, id) == i,
    decreases pool.len(),
{
    if i > 0 {
        assert(pool[0].id != id);
        let rest = pool.skip(1);
        assert forall|j: int| 0 <= j < i - 1 implies (#[trigger] rest[j]).id != id by {
            assert(rest[j] == pool[j + 1]);
        }
        lemma_index_of_id(rest, id, i - 1);
    }
}

/// Takes the entry with the id out of the pool.
fn take_entry(pool: &mut Vec<Entry>, id: &str) -> (r: Option<Entry>)
    ensures
        ({
            let was = entry_views(old(pool)@);
            let i = index_of_id(was, id@);
            match r {
                Some(entry) => i < was.len() && entry@ == was[i] && entry_views(final(pool)@)
                    == was.remove(i),
                None => i >= was.len() && final(pool)@ == old(pool)@,
            }
        }),
{
    let ghost was = entry_views(pool@);
    let mut i: usize = 0;
    while i < pool.len()
        invariant
            i <= pool.len(),
            pool@ == old(pool)@,
            was == entry_views(pool@),
            forall|j: int| 0 <= j < i ==> (#[trigger] was[j]).id != id@,
        decreases pool.len() - i,
    {
        if text::same(pool[i].id.as_str(), id) {
            proof {
                lemma_index_of_id(was, id@, i as int);
            }
            let entry = pool.remove(i);
            assert(entry_views(pool@) =~= was.remove(i as int));
            return Some(entry);
        }
        i += 1;
    }
    proof {
        lemma_index_of_id(was, id@, i as int);
    }
    None
}

/// The entries, each id once: of two entries with one id the later stays.
fn latest_entries(entries: Vec<Entry>) -> (pool: Vec<Entry>)
    ensures
        entry_views(pool@) == latest(entry_views(entries@)),
{
    broadcast use lemma_entries_push;

    let ghost views = entry_views(entries@);
    let mut pool: Vec<Entry> = Vec::new();
    assert(entry_views(pool@) =~= Seq::<EntryView>::empty());
    assert(views.take(0) =~= Seq::<EntryView>::empty());
    for entry in it: entries
        invariant
            it.seq() == entries@,
            views == entry_views(entries@),
            entry_views(pool@) == latest(views.take(it.index() as int)),
    {
        let ghost i = it.index() as int;
        proof {
            assert(views.take(i + 1).drop_last() =~= views.take(i));
            assert(views.take(i + 1).last() == entry@);
        }
        let replaced = take_entry(&mut pool, entry.id.as_str());
        pool.push(entry);
    }
    assert(views.take(views.len() as int) =~= views);
    pool
}

/// `first`, or `second` where there is none.
fn either<T>(first: Option<T>, second: Option<T>) -> (r: Option<T>)
    ensures
        r == if first is Some {
            first
        } else {
            second
        },
{
    match first {
        Some(value) => Some(value),
        None => second,
    }
}

/// One log session, with the store's detail folded in where there is any.
fn join_session(session: Session, detail: Option<Entry>) -> (r: Record)
    ensures
        r@ == joined(
            session@,
            match detail {
                Some(entry) => Some(entry@),
                None => None,
            },
        ),
{
    match detail {
        None => {
            let r = Record {
                id: session.id,
                tool: session.caller,
                started: session.started,
                finished: session.finished,
                command: session.command,
                actions: session.actions,
                hooks: session.hooks,
                pacnew: Vec::new(),
                pacsave: Vec::new(),
                outcome: session.outcome,
                detailed: false,
            };
            assert(r@.pacnew =~= Seq::<Seq<char>>::empty());
            assert(r@.pacsave =~= Seq::<Seq<char>>::empty());
            r
        },
        Some(detail) => Record {
            id: Some(detail.id),
            tool: session.caller,
            started: either(session.started, Some(detail.started)),
            finished: either(session.finished, detail.finished),
            command: either(detail.command, session.command),
            actions: detail.actions,
            hooks: detail.hooks,
            pacnew: detail.pacnew,
            pacsave: detail.pacsave,
            outcome: detail.outcome,
            detailed: true,
        },
    }
}

impl Record {
    /// A transaction that only the store knows.
    pub fn from_entry(entry: Entry) -> (r: Self)
        ensures
            r@ == store_only(entry@),
    {
        Record {
            id: Some(entry.id),
            tool: pacman_log::CALLER.to_owned(),
            started: Some(entry.started),
            finished: entry.finished,
            command: entry.command,
            actions: entry.actions,
            hooks: entry.hooks,
            pacnew: entry.pacnew,
            pacsave: entry.pacsave,
            outcome: entry.outcome,
            detailed: true,
        }
    }
}

/// Appending a record appends its view.
broadcast proof fn lemma_records_push(list: Seq<Record>, record: Record)
    ensures
        #[trigger] record_views(list.push(record)) == record_views(list).push(record@),
{
    assert(record_views(list.push(record)) =~= record_views(list).push(record@));
}

/// Inserting where every later record has a greater key is inserting by key.
proof fn lemma_insert_by_key(s: Seq<RecordView>, r: RecordView, at: int)
    requires
        0 <= at <= s.len(),
        at > 0 ==> s[at - 1].key() <= r.key(),
        forall|j: int| at <= j < s.len() ==> (#[trigger] s[j]).key() > r.key(),
    ensures
        insert_by_key(s, r) == s.insert(at, r),
    decreases s.len(),
{
    if at == s.len() {
        assert(s.insert(at, r) =~= s.push(r));
    } else {
        let t = s.drop_last();
        assert(s[s.len() - 1].key() > r.key());
        assert forall|j: int| at <= j < t.len() implies (#[trigger] t[j]).key() > r.key() by {
            assert(t[j] == s[j]);
        }
        lemma_insert_by_key(t, r, at);
        assert(s.insert(at, r) =~= t.insert(at, r).push(s.last()));
    }
}

/// Puts a record into a list that is in order.
fn insert_record(list: &mut Vec<Record>, record: Record)
    ensures
        record_views(final(list)@) == insert_by_key(record_views(old(list)@), record@),
{
    let key = record.key();
    let ghost was = record_views(list@);
    let mut at: usize = list.len();
    while at > 0 && list[at - 1].key() > key
        invariant
            at <= list.len(),
            list@ == old(list)@,
            was == record_views(list@),
            key == record@.key(),
            forall|j: int| at <= j < was.len() ==> (#[trigger] was[j]).key() > key,
        decreases at,
    {
        at -= 1;
    }
    proof {
        lemma_insert_by_key(was, record@, at as int);
    }
    list.insert(at, record);
    assert(record_views(list@) =~= was.insert(at as int, record@));
}

/// Every transaction either record knows, oldest first.
fn ordered_records(sessions: Vec<Session>, entries: Vec<Entry>) -> (r: Vec<Record>)
    ensures
        record_views(r@) == by_time(
            all_records(pacman_log::session_views(sessions@), entry_views(entries@)),
        ),
{
    let ghost views = pacman_log::session_views(sessions@);
    let ghost pool0 = latest(entry_views(entries@));
    let mut pool = latest_entries(entries);
    let mut out: Vec<Record> = Vec::new();
    let ghost mut all: Seq<RecordView> = Seq::empty();
    assert(record_views(out@) =~= Seq::<RecordView>::empty());
    assert(views.take(0) =~= Seq::<SessionView>::empty());
    for session in it: sessions
        invariant
            it.seq() == sessions@,
            views == pacman_log::session_views(sessions@),
            join_all(views.take(it.index() as int), pool0) == (all, entry_views(pool@)),
            record_views(out@) == by_time(all),
    {
        let ghost i = it.index() as int;
        proof {
            assert(views.take(i + 1).drop_last() =~= views.take(i));
            assert(views.take(i + 1).last() == session@);
        }
        let detail = match &session.id {
            Some(id) => take_entry(&mut pool, id.as_str()),
            None => None,
        };
        let record = join_session(session, detail);
        proof {
            assert(all.push(record@).drop_last() =~= all);
            all = all.push(record@);
        }
        insert_record(&mut out, record);
    }
    assert(views.take(views.len() as int) =~= views);
    let ghost left = entry_views(pool@);
    let ghost tail = left.map_values(|e: EntryView| store_only(e));
    let ghost records = all;
    assert(records + tail.take(0) =~= records);
    for entry in it: pool
        invariant
            it.seq() == pool@,
            left == entry_views(pool@),
            tail == left.map_values(|e: EntryView| store_only(e)),
            all == records + tail.take(it.index() as int),
            record_views(out@) == by_time(all),
    {
        let ghost i = it.index() as int;
        let record = Record::from_entry(entry);
        proof {
            assert(left[i] == entry@);
            assert(record@ == tail[i]);
            assert(tail.take(i + 1) =~= tail.take(i).push(record@));
            assert(records + tail.take(i + 1) =~= all.push(record@));
            assert(all.push(record@).drop_last() =~= all);
            all = all.push(record@);
        }
        insert_record(&mut out, record);
    }
    assert(tail.take(tail.len() as int) =~= tail);
    out
}

/// Joins log sessions and store entries by id, then filters and trims.
///
/// The result is oldest first. A transaction that only one of the records knows is kept.
pub fn merge(sessions: Vec<Session>, entries: Vec<Entry>, query: &Query) -> (r: Vec<Record>)
    ensures
        record_views(r@) == history_of(
            pacman_log::session_views(sessions@),
            entry_views(entries@),
            *query,
        ),
{
    broadcast use lemma_records_push;

    let records = ordered_records(sessions, entries);
    let ghost views = record_views(records@);
    let ghost keep = |r: RecordView| query.wants(r);
    let mut kept: Vec<Record> = Vec::new();
    proof {
        reveal(Seq::filter);
        assert(record_views(kept@) =~= views.take(0).filter(keep));
    }
    for record in it: records
        invariant
            it.seq() == records@,
            views == record_views(records@),
            keep == (|r: RecordView| query.wants(r)),
            record_views(kept@) == views.take(it.index() as int).filter(keep),
    {
        proof {
            order::lemma_filter_step(views, it.index() as int, keep);
            assert(views[it.index() as int] == record@);
        }
        if query.asks_for(&record) {
            kept.push(record);
        }
    }
    assert(views.take(views.len() as int) =~= views);
    let ghost whole = record_views(kept@);
    if let Some(last) = query.last {
        if kept.len() > last {
            let cut: usize = kept.len() - last;
            let tail = kept.split_off(cut);
            assert(record_views(tail@) =~= whole.skip(whole.len() - last));
            return tail;
        }
    }
    kept
}

/// What reading one of the two records gave.
#[derive(Clone, Debug)]
pub enum Source {
    /// There is nothing to read: no file was named, or the one that was is not there. A tool that
    /// never ran a transaction has none.
    Nothing,
    /// The file could not be read.
    Unreadable {
        /// The file.
        path: String,
        /// Why not.
        reason: String,
    },
    /// What was read.
    Contents {
        /// The bytes.
        bytes: Vec<u8>,
        /// Whether something comes before them in the file.
        partial: bool,
    },
}

/// The sessions that a log's contents describe.
pub open spec fn sessions_in(log: Source) -> Seq<SessionView> {
    match log {
        Source::Contents { bytes, .. } => pacman_log::reading(
            pacman_log::lines_in(crate::bytes::byte_lines(bytes@)),
        ).sessions(),
        _ => Seq::empty(),
    }
}

/// The entries that a store's contents hold.
pub open spec fn entries_in(store: Source) -> Seq<EntryView> {
    match store {
        Source::Contents { bytes, partial } => newest(
            store::entries_of(text::lossy_text(store::whole_lines(bytes@, partial))),
            Some(usize::MAX),
        ),
        _ => Seq::empty(),
    }
}

/// Reads the history out of both records.
///
/// The limit of the query applies after they are joined: trimming before would drop detail for a
/// session the log still shows.
pub fn read(log: Source, store: Source, query: &Query) -> (r: Result<Vec<Record>, Problem>)
    ensures
        match (log, store) {
            (Source::Unreadable { path, reason }, _) => r matches Err(
                Problem::Log { path: at, reason: why },
            ) && at == path && why == reason,
            (_, Source::Unreadable { path, reason }) => r matches Err(
                Problem::Store { path: at, reason: why },
            ) && at == path && why == reason,
            _ => r matches Ok(records) && record_views(records@) == history_of(
                sessions_in(log),
                entries_in(store),
                *query,
            ),
        },
{
    let sessions = match log {
        Source::Nothing => {
            let none: Vec<Session> = Vec::new();
            assert(pacman_log::session_views(none@) =~= Seq::<SessionView>::empty());
            none
        },
        Source::Unreadable { path, reason } => {
            return Err(Problem::Log { path, reason });
        },
        Source::Contents { bytes, partial: _ } => {
            let lines = pacman_log::read(bytes.as_slice());
            pacman_log::sessions(&lines)
        },
    };
    let entries = match store {
        Source::Nothing => {
            let none: Vec<Entry> = Vec::new();
            assert(entry_views(none@) =~= Seq::<EntryView>::empty());
            none
        },
        Source::Unreadable { path, reason } => {
            return Err(Problem::Store { path, reason });
        },
        Source::Contents { bytes, partial } => {
            store::read_tail(bytes.as_slice(), partial, usize::MAX)
        },
    };
    Ok(merge(sessions, entries, query))
}

/// No record comes before an earlier one.
pub open spec fn oldest_first(s: Seq<RecordView>) -> bool {
    forall|i: int, j: int|
        0 <= i < j < s.len() ==> (#[trigger] s[i]).key() <= (#[trigger] s[j]).key()
}

proof fn lemma_insert_keeps_order(s: Seq<RecordView>, r: RecordView)
    requires
        oldest_first(s),
    ensures
        oldest_first(insert_by_key(s, r)),
        insert_by_key(s, r).len() == s.len() + 1,
        s.len() > 0 ==> insert_by_key(s, r).last().key() == if s.last().key() <= r.key() {
            r.key()
        } else {
            s.last().key()
        },
        forall|i: int|
            0 <= i < insert_by_key(s, r).len() ==> (#[trigger] insert_by_key(s, r)[i]) == r
                || s.contains(insert_by_key(s, r)[i]),
    decreases s.len(),
{
    if s.len() == 0 || s.last().key() <= r.key() {
        let t = s.push(r);
        assert forall|i: int, j: int| 0 <= i < j < t.len() implies (#[trigger] t[i]).key() <= (
        #[trigger] t[j]).key() by {
            if j == s.len() && i < s.len() - 1 {
                assert(s[i].key() <= s[s.len() - 1].key());
            }
        }
        assert forall|i: int| 0 <= i < t.len() implies (#[trigger] t[i]) == r || s.contains(
            t[i],
        ) by {
            if i < s.len() {
                assert(s[i] == t[i]);
            }
        }
    } else {
        let head = s.drop_last();
        assert forall|i: int, j: int| 0 <= i < j < head.len() implies (#[trigger] head[i]).key()
            <= (#[trigger] head[j]).key() by {
            assert(s[i].key() <= s[j].key());
        }
        lemma_insert_keeps_order(head, r);
        let inner = insert_by_key(head, r);
        let t = inner.push(s.last());
        assert forall|i: int| 0 <= i < inner.len() implies (#[trigger] inner[i]).key()
            <= s.last().key() && (inner[i] == r || s.contains(inner[i])) by {
            if inner[i] != r {
                let k = choose|k: int| 0 <= k < head.len() && head[k] == inner[i];
                assert(s[k] == inner[i]);
                assert(s[k].key() <= s[s.len() - 1].key());
            }
        }
        assert forall|i: int| 0 <= i < t.len() implies (#[trigger] t[i]) == r || s.contains(
            t[i],
        ) by {
            if i < inner.len() {
                assert(t[i] == inner[i]);
            } else {
                assert(s[s.len() - 1] == t[i]);
            }
        }
    }
}

proof fn lemma_by_time(s: Seq<RecordView>)
    ensures
        oldest_first(by_time(s)),
        by_time(s).len() == s.len(),
    decreases s.len(),
{
    if s.len() > 0 {
        lemma_by_time(s.drop_last());
        lemma_insert_keeps_order(by_time(s.drop_last()), s.last());
    }
}

proof fn lemma_filter_keeps_order(s: Seq<RecordView>, keep: spec_fn(RecordView) -> bool)
    requires
        oldest_first(s),
    ensures
        oldest_first(s.filter(keep)),
        forall|i: int| 0 <= i < s.filter(keep).len() ==> s.contains(#[trigger] s.filter(keep)[i]),
    decreases s.len(),
{
    reveal(Seq::filter);
    if s.len() > 0 {
        let t = s.drop_last();
        let f = t.filter(keep);
        assert forall|i: int, j: int| 0 <= i < j < t.len() implies (#[trigger] t[i]).key() <= (
        #[trigger] t[j]).key() by {
            assert(s[i].key() <= s[j].key());
        }
        lemma_filter_keeps_order(t, keep);
        assert forall|i: int| 0 <= i < s.filter(keep).len() implies s.contains(
            #[trigger] s.filter(keep)[i],
        ) by {
            if i < f.len() {
                let k = choose|k: int| 0 <= k < t.len() && t[k] == f[i];
                assert(s[k] == s.filter(keep)[i]);
            } else {
                assert(s[s.len() - 1] == s.filter(keep)[i]);
            }
        }
        if keep(s.last()) {
            let g = f.push(s.last());
            assert forall|i: int, j: int| 0 <= i < j < g.len() implies (#[trigger] g[i]).key() <= (
            #[trigger] g[j]).key() by {
                if j == f.len() {
                    let k = choose|k: int| 0 <= k < t.len() && t[k] == f[i];
                    assert(s[k] == f[i]);
                    assert(s[k].key() <= s[s.len() - 1].key());
                } else {
                    assert(f[i].key() <= f[j].key());
                }
            }
        }
    }
}

/// A merged history is oldest first, and holds only what the query asks for.
pub proof fn a_history_is_oldest_first(
    sessions: Seq<SessionView>,
    entries: Seq<EntryView>,
    query: Query,
)
    ensures
        oldest_first(history_of(sessions, entries, query)),
        query.last is Some ==> history_of(sessions, entries, query).len() <= query.last->0,
{
    let all = by_time(all_records(sessions, entries));
    let keep = |r: RecordView| query.wants(r);
    lemma_by_time(all_records(sessions, entries));
    lemma_filter_keeps_order(all, keep);
    let f = all.filter(keep);
    let t = newest(f, query.last);
    assert forall|i: int, j: int| 0 <= i < j < t.len() implies (#[trigger] t[i]).key() <= (
    #[trigger] t[j]).key() by {
        let d = f.len() - t.len();
        assert(t[i] == f[i + d] && t[j] == f[j + d]);
    }
}

/// How many records there are: one for each session, and one for each entry no session took.
pub proof fn no_transaction_is_lost(sessions: Seq<SessionView>, entries: Seq<EntryView>)
    ensures
        by_time(all_records(sessions, entries)).len() == sessions.len() + join_all(
            sessions,
            latest(entries),
        ).1.len(),
{
    lemma_by_time(all_records(sessions, entries));
    lemma_join_len(sessions, latest(entries));
}

proof fn lemma_join_len(sessions: Seq<SessionView>, pool: Seq<EntryView>)
    ensures
        join_all(sessions, pool).0.len() == sessions.len(),
    decreases sessions.len(),
{
    if sessions.len() > 0 {
        lemma_join_len(sessions.drop_last(), pool);
    }
}

/// Identifies one transaction: when it started, and which process ran it.
pub fn transaction_id(started: i64, process: u32) -> (r: String)
    ensures
        r@ == text::dec_int(started as int).push('-') + text::dec(process as nat),
{
    let mut out = text::decimal_signed(started);
    out.push('-');
    text::push_decimal(&mut out, process as u64);
    out
}

/// `path` without `suffix`, or `path` unchanged where it does not end with it.
pub open spec fn without_suffix(path: Seq<char>, suffix: Seq<char>) -> Seq<char> {
    match text::strip_suffix(path, suffix) {
        Some(head) => head,
        None => path,
    }
}

/// `path` up to the last occurrence of `mark`, or `path` unchanged where it has none.
pub open spec fn before_last(path: Seq<char>, mark: Seq<char>, n: int) -> Seq<char>
    decreases n + 1,
{
    if n < 0 {
        path
    } else if text::starts_with(path.skip(n), mark) {
        path.take(n)
    } else {
        before_last(path, mark, n - 1)
    }
}

/// The path a `.pacsave` was rotated from: what comes before the last `.pacsave`.
pub open spec fn saved_from(path: Seq<char>) -> Seq<char> {
    before_last(path, ".pacsave"@, path.len() as int)
}

/// `path` without `suffix`, or `path` unchanged where it does not end with it.
fn strip_suffix(path: &str, suffix: &str) -> (r: String)
    ensures
        r@ == without_suffix(path@, suffix@),
{
    let all = text::chars(path);
    match text::before_text(all.as_slice(), suffix) {
        Some(head) => text::text(head),
        None => path.to_owned(),
    }
}

/// The path a `.pacnew` was diverted from.
pub fn strip_pacnew(path: &str) -> (r: String)
    ensures
        r@ == without_suffix(path@, ".pacnew"@),
{
    strip_suffix(path, ".pacnew")
}

/// The path a `.pacsave` was rotated from.
///
/// Repeated saves are numbered `.pacsave.1`, `.pacsave.2`, and so on, so the suffix is matched at
/// the last `.pacsave`, not only at the end.
pub fn strip_pacsave(path: &str) -> (r: String)
    ensures
        r@ == saved_from(path@),
{
    let all = text::chars(path);
    let s = all.as_slice();
    let mut n: usize = s.len();
    loop
        invariant
            n <= s.len(),
            s@ == path@,
            saved_from(path@) == before_last(path@, ".pacsave"@, n as int),
        decreases n,
    {
        let tail = vstd::slice::slice_subrange(s, n, s.len());
        assert(tail@ =~= path@.skip(n as int));
        if text::after_text(tail, ".pacsave").is_some() {
            let head = vstd::slice::slice_subrange(s, 0, n);
            assert(head@ =~= path@.take(n as int));
            return text::text(head);
        }
        if n == 0 {
            assert(before_last(path@, ".pacsave"@, -1) == path@);
            return path.to_owned();
        }
        n -= 1;
    }
}

} // verus!
