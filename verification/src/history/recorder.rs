//! Keeping both records of a transaction while it runs.
//!
//! A [`Recorder`] is driven by progress events. It never writes: each call returns the lines that
//! belong in the log, in order, and whoever writes them stops at the first that fails and says so
//! with [`Recorder::note_log_failure`]. Recording never fails a transaction.

use vstd::prelude::*;

use super::pacman_log::{CALLER, SCRIPTLET_CALLER};
use super::store;
use super::time_fmt::LocalOffset;
use super::{
    action_views, install_action, saved_from, strip_pacnew, strip_pacsave, transaction_id,
    without_suffix, Action, ActionView, Entry, EntryView, Outcome, OutcomeView, Problem, Recording,
};
use crate::extract::backup::{BackupOutcome, BackupOutcomeView};
use crate::install;
use crate::install::{Extraction, OutcomeView as MemberOutcomeView};
use crate::plan::Step;
use crate::progress::{Event, StepOutcome};
use crate::text;

verus! {

broadcast use crate::text::group_lists;

/// One line that belongs in the log.
#[derive(Clone, Debug, Eq, PartialEq)]
pub struct LogLine {
    /// Whether a scriptlet printed it.
    pub scriptlet: bool,
    /// Its message.
    pub message: String,
}

/// What a [`LogLine`] holds.
pub struct LogLineView {
    /// Whether a scriptlet printed it.
    pub scriptlet: bool,
    /// Its message.
    pub message: Seq<char>,
}

impl View for LogLine {
    type V = LogLineView;

    open spec fn view(&self) -> LogLineView {
        LogLineView { scriptlet: self.scriptlet, message: self.message@ }
    }
}

impl LogLine {
    /// The caller that the line carries.
    pub fn caller(&self) -> (r: &'static str)
        ensures
            r@ == if self.scriptlet {
                SCRIPTLET_CALLER@
            } else {
                CALLER@
            },
    {
        if self.scriptlet {
            SCRIPTLET_CALLER
        } else {
            CALLER
        }
    }
}

/// The views of a list of lines.
pub open spec fn log_views(list: Seq<LogLine>) -> Seq<LogLineView> {
    Seq::new(list.len(), |i: int| list[i]@)
}

/// A line of this program's own.
pub open spec fn own(message: Seq<char>) -> LogLineView {
    LogLineView { scriptlet: false, message }
}

// ---------------------------------------------------------------------------------------------
// What events say

/// The `.pacnew` files that the first outcomes of an extraction left on disk.
pub open spec fn pacnews(outcomes: Seq<(Seq<char>, MemberOutcomeView)>) -> Seq<Seq<char>>
    decreases outcomes.len(),
{
    if outcomes.len() == 0 {
        Seq::empty()
    } else {
        let before = pacnews(outcomes.drop_last());
        match outcomes.last().1 {
            MemberOutcomeView::Backup(BackupOutcomeView::KeptBoth { pacnew }) => before.push(
                pacnew,
            ),
            _ => before,
        }
    }
}

/// The warning for a `.pacnew`.
pub open spec fn pacnew_warning(path: Seq<char>) -> LogLineView {
    own("warning: "@ + without_suffix(path, ".pacnew"@) + " installed as "@ + path)
}

/// The warning for a `.pacsave`.
pub open spec fn pacsave_warning(path: Seq<char>) -> LogLineView {
    own("warning: "@ + saved_from(path) + " saved as "@ + path)
}

/// The warnings for a list of `.pacnew` files.
pub open spec fn pacnew_warnings(paths: Seq<Seq<char>>) -> Seq<LogLineView> {
    Seq::new(paths.len(), |i: int| pacnew_warning(paths[i]))
}

/// The warnings for a list of `.pacsave` files.
pub open spec fn pacsave_warnings(paths: Seq<Seq<char>>) -> Seq<LogLineView> {
    Seq::new(paths.len(), |i: int| pacsave_warning(paths[i]))
}

/// What a finished step adds to the entry, and the lines it puts in the log: what it left behind
/// first, then what it did.
pub open spec fn after_step(entry: EntryView, step: Step, outcome: StepOutcome) -> (
    EntryView,
    Seq<LogLineView>,
) {
    match outcome {
        StepOutcome::Installed { entry: written, replaced, extraction, pacsaves } => {
            let news = pacnews(install::outcome_views(extraction.outcomes@));
            let saves = text::texts(pacsaves@);
            let action = install_action(
                written@,
                match replaced {
                    Some(previous) => Some(previous@),
                    None => None,
                },
            );
            (
                EntryView {
                    pacnew: entry.pacnew + news,
                    pacsave: entry.pacsave + saves,
                    actions: entry.actions.push(action),
                    ..entry
                },
                pacnew_warnings(news) + pacsave_warnings(saves) + seq![own(action.log_message())],
            )
        },
        StepOutcome::Removed { pacsaves } => match step {
            Step::Remove { entry: gone, .. } => {
                let saves = text::texts(pacsaves@);
                let action = ActionView::Removed { name: gone.name@, version: gone.version@ };
                (
                    EntryView {
                        pacsave: entry.pacsave + saves,
                        actions: entry.actions.push(action),
                        ..entry
                    },
                    pacsave_warnings(saves) + seq![own(action.log_message())],
                )
            },
            Step::Install { .. } => (entry, Seq::empty()),
        },
    }
}

/// What an event adds to the entry, and the lines it puts in the log.
pub open spec fn after_event(entry: EntryView, event: Event) -> (EntryView, Seq<LogLineView>) {
    match event {
        Event::StepFinished { step, outcome } => after_step(entry, *step, outcome),
        Event::HookStarted { name, .. } => (
            EntryView { hooks: entry.hooks.push(name@), ..entry },
            seq![own("running '"@ + name@ + "'..."@)],
        ),
        Event::ScriptletOutputLine { line, .. } => (
            entry,
            seq![LogLineView { scriptlet: true, message: line@ }],
        ),
        _ => (entry, Seq::empty()),
    }
}

/// Every `.pacnew` an extraction left on disk.
pub fn pacnew_paths(extraction: &Extraction) -> (r: Vec<String>)
    ensures
        text::texts(r@) == pacnews(install::outcome_views(extraction.outcomes@)),
{
    let mut out: Vec<String> = Vec::new();
    let ghost all = install::outcome_views(extraction.outcomes@);
    let mut i: usize = 0;
    assert(all.take(0) =~= Seq::<(Seq<char>, MemberOutcomeView)>::empty());
    assert(text::texts(out@) =~= Seq::<Seq<char>>::empty());
    while i < extraction.outcomes.len()
        invariant
            i <= extraction.outcomes.len(),
            all == install::outcome_views(extraction.outcomes@),
            text::texts(out@) == pacnews(all.take(i as int)),
        decreases extraction.outcomes.len() - i,
    {
        proof {
            let so_far = all.take(i + 1);
            assert(so_far.drop_last() =~= all.take(i as int));
            assert(so_far.last() == all[i as int]);
        }
        match &extraction.outcomes[i].1 {
            install::Outcome::Backup(BackupOutcome::KeptBoth { pacnew }) => {
                out.push(pacnew.clone());
            },
            _ => {},
        }
        i += 1;
    }
    assert(all.take(i as int) =~= all);
    out
}

// ---------------------------------------------------------------------------------------------
// The recorder

/// Both records of a running transaction.
#[derive(Debug)]
pub struct Recorder {
    logging: bool,
    log_path: Option<String>,
    store_path: Option<String>,
    offset: LocalOffset,
    entry: Entry,
    problems: Vec<Problem>,
}

/// What a [`Recorder`] holds.
pub struct RecorderView {
    /// Whether lines are still written to the log.
    pub logging: bool,
    /// The log.
    pub log_path: Option<Seq<char>>,
    /// The history store.
    pub store_path: Option<Seq<char>>,
    /// The offset timestamps are rendered in.
    pub offset: LocalOffset,
    /// What happened so far.
    pub entry: EntryView,
    /// What went wrong.
    pub problems: Seq<Problem>,
}

impl View for Recorder {
    type V = RecorderView;

    closed spec fn view(&self) -> RecorderView {
        RecorderView {
            logging: self.logging,
            log_path: text::maybe(self.log_path),
            store_path: text::maybe(self.store_path),
            offset: self.offset,
            entry: self.entry@,
            problems: self.problems@,
        }
    }
}

/// The lines that are to be written.
pub open spec fn spoken(logging: bool, lines: Seq<LogLineView>) -> Seq<LogLineView> {
    if logging {
        lines
    } else {
        Seq::empty()
    }
}

/// The entry of a transaction that begins.
pub open spec fn fresh_entry(
    recording: Recording,
    root: Seq<char>,
    dbpath: Seq<char>,
    started: i64,
    process: u32,
) -> EntryView {
    EntryView {
        id: text::dec_int(started as int).push('-') + text::dec(process as nat),
        started,
        finished: None,
        root,
        dbpath,
        command: text::maybe(recording.command),
        actions: Seq::empty(),
        pacnew: Seq::empty(),
        pacsave: Seq::empty(),
        hooks: Seq::empty(),
        outcome: OutcomeView::Interrupted,
    }
}

/// Whether a problem is a failure of the log.
pub open spec fn is_log_problem(problem: Problem, path: Seq<char>, reason: Seq<char>) -> bool {
    problem matches Problem::Log { path: at, reason: why } && at@ == path && why@ == reason
}

/// Whether a problem is a failure of the store.
pub open spec fn is_store_problem(problem: Problem, path: Seq<char>, reason: Seq<char>) -> bool {
    problem matches Problem::Store { path: at, reason: why } && at@ == path && why@ == reason
}

impl Recorder {
    /// Stamps the transaction's start. `opened` is what opening the log said, where there is one:
    /// a log that cannot be opened is dropped, with a [`Problem`].
    pub fn open(
        recording: &Recording,
        root: &str,
        dbpath: &str,
        started: i64,
        process: u32,
        opened: Result<(), String>,
    ) -> (r: Self)
        ensures
            r@.logging == (recording.log_file is Some && opened is Ok),
            r@.log_path == text::maybe(recording.log_file),
            r@.store_path == text::maybe(recording.store),
            r@.offset == recording.offset,
            r@.entry == fresh_entry(*recording, root@, dbpath@, started, process),
            match (recording.log_file, opened) {
                (Some(path), Err(reason)) => r@.problems.len() == 1 && is_log_problem(
                    r@.problems[0],
                    path@,
                    reason@,
                ),
                _ => r@.problems.len() == 0,
            },
    {
        let mut problems: Vec<Problem> = Vec::new();
        let mut logging = false;
        if let Some(path) = &recording.log_file {
            match opened {
                Ok(()) => {
                    logging = true;
                },
                Err(reason) => {
                    problems.push(Problem::Log { path: path.clone(), reason });
                },
            }
        }
        let entry = Entry {
            id: transaction_id(started, process),
            started,
            finished: None,
            root: root.to_owned(),
            dbpath: dbpath.to_owned(),
            command: recording.command.clone(),
            actions: Vec::new(),
            pacnew: Vec::new(),
            pacsave: Vec::new(),
            hooks: Vec::new(),
            outcome: Outcome::Interrupted,
        };
        proof {
            assert(entry@.actions =~= Seq::<ActionView>::empty());
            assert(entry@.pacnew =~= Seq::<Seq<char>>::empty());
            assert(entry@.pacsave =~= Seq::<Seq<char>>::empty());
            assert(entry@.hooks =~= Seq::<Seq<char>>::empty());
        }
        Recorder {
            logging,
            log_path: recording.log_file.clone(),
            store_path: recording.store.clone(),
            offset: recording.offset,
            entry,
            problems,
        }
    }

    /// The line for the transaction's start, which is written before the first change.
    pub fn started(&self) -> (r: Vec<LogLine>)
        ensures
            log_views(r@) == spoken(
                self@.logging,
                seq![own("transaction started (id "@ + self@.entry.id + ")"@)],
            ),
    {
        let mut message = "transaction started (id ".to_owned();
        message.push_str(self.entry.id.as_str());
        message.push_str(")");
        let mut lines: Vec<LogLine> = Vec::new();
        push_own(&mut lines, message);
        assert(log_views(lines@) =~= seq![
            own("transaction started (id "@ + self@.entry.id + ")"@),
        ]);
        self.speak(lines)
    }

    /// The lines that are to be written.
    fn speak(&self, lines: Vec<LogLine>) -> (r: Vec<LogLine>)
        ensures
            log_views(r@) == spoken(self@.logging, log_views(lines@)),
    {
        if self.logging {
            lines
        } else {
            let none: Vec<LogLine> = Vec::new();
            assert(log_views(none@) =~= Seq::<LogLineView>::empty());
            none
        }
    }

    /// Records what one progress event says, if it says anything durable, and returns the lines
    /// that belong in the log.
    pub fn observe(&mut self, event: &Event<'_>) -> (r: Vec<LogLine>)
        ensures
            final(self)@ == (RecorderView {
                entry: after_event(old(self)@.entry, *event).0,
                ..old(self)@
            }),
            log_views(r@) == spoken(
                old(self)@.logging,
                after_event(old(self)@.entry, *event).1,
            ),
    {
        let mut lines: Vec<LogLine> = Vec::new();
        assert(log_views(lines@) =~= Seq::<LogLineView>::empty());
        match event {
            Event::StepFinished { step, outcome } => {
                lines = self.step(step, outcome);
            },
            Event::HookStarted { index: _, total: _, name, description: _ } => {
                self.entry.hooks.push((*name).to_owned());
                let mut message = "running '".to_owned();
                message.push_str(name);
                message.push_str("'...");
                push_own(&mut lines, message);
                assert(log_views(lines@) =~= seq![own("running '"@ + name@ + "'..."@)]);
            },
            Event::ScriptletOutputLine { package: _, kind: _, line } => {
                lines.push(LogLine { scriptlet: true, message: (*line).to_owned() });
                assert(log_views(lines@) =~= seq![
                    LogLineView { scriptlet: true, message: line@ },
                ]);
            },
            _ => {},
        }
        self.speak(lines)
    }

    /// Records a finished step.
    fn step(&mut self, step: &Step, outcome: &StepOutcome<'_>) -> (r: Vec<LogLine>)
        ensures
            final(self)@ == (RecorderView {
                entry: after_step(old(self)@.entry, *step, *outcome).0,
                ..old(self)@
            }),
            log_views(r@) == after_step(old(self)@.entry, *step, *outcome).1,
    {
        let mut lines: Vec<LogLine> = Vec::new();
        let ghost start = self@.entry;
        let ghost none = log_views(lines@);
        assert(none =~= Seq::<LogLineView>::empty());
        let ghost mut news: Seq<Seq<char>> = Seq::empty();
        let (action, pacsaves) = match outcome {
            StepOutcome::Installed { entry, replaced, extraction, pacsaves } => {
                let paths = pacnew_paths(extraction);
                proof {
                    news = text::texts(paths@);
                }
                self.left_pacnew(&mut lines, paths);
                (Action::installed(entry, *replaced), *pacsaves)
            },
            StepOutcome::Removed { pacsaves } => match step {
                Step::Remove { entry, no_save: _ } => (Action::removed(entry), *pacsaves),
                Step::Install { .. } => {
                    return lines;
                },
            },
        };
        proof {
            assert(pacnew_warnings(Seq::empty()) =~= Seq::<LogLineView>::empty());
            assert(none + pacnew_warnings(news) =~= pacnew_warnings(news));
            assert(log_views(lines@) =~= pacnew_warnings(news));
            if news.len() == 0 {
                assert(start.pacnew + news =~= start.pacnew);
            }
        }
        self.left_pacsave(&mut lines, pacsaves);
        let ghost so_far = log_views(lines@);
        push_own(&mut lines, action.log_message());
        let ghost before = self.entry.actions@;
        self.entry.actions.push(action);
        proof {
            assert(action_views(self.entry.actions@) =~= action_views(before).push(action@));
            assert(log_views(lines@) =~= so_far + seq![own(action@.log_message())]);
            if outcome is Removed {
                assert(pacnew_warnings(news) + pacsave_warnings(text::texts(pacsaves@))
                    =~= pacsave_warnings(text::texts(pacsaves@)));
            }
        }
        lines
    }

    /// Records the `.pacnew` files of a step.
    fn left_pacnew(&mut self, lines: &mut Vec<LogLine>, paths: Vec<String>)
        ensures
            final(self)@ == (RecorderView {
                entry: (EntryView {
                    pacnew: old(self)@.entry.pacnew + text::texts(paths@),
                    ..old(self)@.entry
                }),
                ..old(self)@
            }),
            log_views(final(lines)@) == log_views(old(lines)@) + pacnew_warnings(
                text::texts(paths@),
            ),
    {
        let ghost start = self@;
        let ghost said = log_views(lines@);
        let ghost all = text::texts(paths@);
        let mut i: usize = 0;
        assert(start.entry.pacnew + all.take(0) =~= start.entry.pacnew);
        assert(said + pacnew_warnings(all.take(0)) =~= said);
        while i < paths.len()
            invariant
                i <= paths.len(),
                all == text::texts(paths@),
                self@ == (RecorderView {
                    entry: (EntryView {
                        pacnew: start.entry.pacnew + all.take(i as int),
                        ..start.entry
                    }),
                    ..start
                }),
                log_views(lines@) == said + pacnew_warnings(all.take(i as int)),
            decreases paths.len() - i,
        {
            let path = paths[i].as_str();
            let mut message = "warning: ".to_owned();
            message.push_str(strip_pacnew(path).as_str());
            message.push_str(" installed as ");
            message.push_str(path);
            push_own(lines, message);
            self.entry.pacnew.push(path.to_owned());
            proof {
                let more = all.take(i + 1);
                assert(more =~= all.take(i as int).push(path@));
                assert(start.entry.pacnew + more =~= (start.entry.pacnew + all.take(
                    i as int,
                )).push(path@));
                assert(said + pacnew_warnings(more) =~= (said + pacnew_warnings(
                    all.take(i as int),
                )).push(pacnew_warning(path@)));
            }
            i += 1;
        }
        assert(all.take(i as int) =~= all);
    }

    /// Records the `.pacsave` files of a step.
    fn left_pacsave(&mut self, lines: &mut Vec<LogLine>, paths: &Vec<String>)
        ensures
            final(self)@ == (RecorderView {
                entry: (EntryView {
                    pacsave: old(self)@.entry.pacsave + text::texts(paths@),
                    ..old(self)@.entry
                }),
                ..old(self)@
            }),
            log_views(final(lines)@) == log_views(old(lines)@) + pacsave_warnings(
                text::texts(paths@),
            ),
    {
        let ghost start = self@;
        let ghost said = log_views(lines@);
        let ghost all = text::texts(paths@);
        let mut i: usize = 0;
        assert(start.entry.pacsave + all.take(0) =~= start.entry.pacsave);
        assert(said + pacsave_warnings(all.take(0)) =~= said);
        while i < paths.len()
            invariant
                i <= paths.len(),
                all == text::texts(paths@),
                self@ == (RecorderView {
                    entry: (EntryView {
                        pacsave: start.entry.pacsave + all.take(i as int),
                        ..start.entry
                    }),
                    ..start
                }),
                log_views(lines@) == said + pacsave_warnings(all.take(i as int)),
            decreases paths.len() - i,
        {
            let path = paths[i].as_str();
            let mut message = "warning: ".to_owned();
            message.push_str(strip_pacsave(path).as_str());
            message.push_str(" saved as ");
            message.push_str(path);
            push_own(lines, message);
            self.entry.pacsave.push(path.to_owned());
            proof {
                let more = all.take(i + 1);
                assert(more =~= all.take(i as int).push(path@));
                assert(start.entry.pacsave + more =~= (start.entry.pacsave + all.take(
                    i as int,
                )).push(path@));
                assert(said + pacsave_warnings(more) =~= (said + pacsave_warnings(
                    all.take(i as int),
                )).push(pacsave_warning(path@)));
            }
            i += 1;
        }
        assert(all.take(i as int) =~= all);
    }

    /// Drops the log after a write failure, so one broken file does not produce one problem per
    /// line for the rest of the transaction.
    pub fn note_log_failure(&mut self, reason: String)
        ensures
            final(self)@ == (RecorderView {
                logging: false,
                problems: final(self)@.problems,
                ..old(self)@
            }),
            match old(self)@.log_path {
                None => final(self)@.problems == old(self)@.problems,
                Some(path) => {
                    &&& final(self)@.problems.len() == old(self)@.problems.len() + 1
                    &&& final(self)@.problems.drop_last() == old(self)@.problems
                    &&& is_log_problem(final(self)@.problems.last(), path, reason@)
                },
            },
    {
        let ghost before = self.problems@;
        self.logging = false;
        if let Some(path) = &self.log_path {
            self.problems.push(Problem::Log { path: path.clone(), reason });
            assert(self.problems@.drop_last() =~= before);
        }
    }

    /// Ends the entry, and returns the line for the end.
    pub fn finish(&mut self, outcome: Outcome, finished: i64) -> (r: Vec<LogLine>)
        ensures
            final(self)@ == (RecorderView {
                entry: (EntryView {
                    outcome: outcome@,
                    finished: Some(finished),
                    ..old(self)@.entry
                }),
                ..old(self)@
            }),
            log_views(r@) == spoken(
                old(self)@.logging,
                seq![
                    own(
                        if outcome is Completed {
                            "transaction completed"@
                        } else {
                            "transaction failed"@
                        },
                    ),
                ],
            ),
    {
        let completed = matches!(outcome, Outcome::Completed);
        let message = if completed {
            "transaction completed".to_owned()
        } else {
            "transaction failed".to_owned()
        };
        let mut lines: Vec<LogLine> = Vec::new();
        push_own(&mut lines, message);
        assert(log_views(lines@) =~= seq![own(message@)]);
        self.entry.outcome = outcome;
        self.entry.finished = Some(finished);
        self.speak(lines)
    }

    /// Where the ended entry's block is appended, and the block.
    pub fn block(&self) -> (r: Option<(String, String)>)
        ensures
            match r {
                Some((path, block)) => self@.store_path == Some(path@) && block@ == store::block(
                    self@.entry,
                    self@.offset@,
                ),
                None => self@.store_path is None,
            },
    {
        match &self.store_path {
            Some(path) => Some((path.clone(), store::render(&self.entry, self.offset))),
            None => None,
        }
    }

    /// Notes that the block could not be appended.
    pub fn note_store_failure(&mut self, reason: String)
        ensures
            final(self)@ == (RecorderView { problems: final(self)@.problems, ..old(self)@ }),
            match old(self)@.store_path {
                None => final(self)@.problems == old(self)@.problems,
                Some(path) => {
                    &&& final(self)@.problems.len() == old(self)@.problems.len() + 1
                    &&& final(self)@.problems.drop_last() == old(self)@.problems
                    &&& is_store_problem(final(self)@.problems.last(), path, reason@)
                },
            },
    {
        let ghost before = self.problems@;
        if let Some(path) = &self.store_path {
            self.problems.push(Problem::Store { path: path.clone(), reason });
            assert(self.problems@.drop_last() =~= before);
        }
    }

    /// Drops the recorder, and returns whatever went wrong along the way. Without an ending before
    /// it, this is for a transaction that never began.
    pub fn abandon(self) -> (r: Vec<Problem>)
        ensures
            r@ == self@.problems,
    {
        self.problems
    }
}

/// Adds a line of this program's own.
fn push_own(lines: &mut Vec<LogLine>, message: String)
    ensures
        log_views(final(lines)@) == log_views(old(lines)@).push(own(message@)),
{
    let ghost before = log_views(lines@);
    let line = LogLine { scriptlet: false, message };
    lines.push(line);
    assert(log_views(lines@) =~= before.push(line@));
}

// ---------------------------------------------------------------------------------------------
// Laws

/// A log that failed is not written again, whatever happens.
pub proof fn a_failed_log_stays_silent(lines: Seq<LogLineView>)
    ensures
        spoken(false, lines).len() == 0,
{
}

/// A finished install or removal is one action in the entry, and its last line in the log.
pub proof fn a_step_is_one_action(entry: EntryView, step: Step, outcome: StepOutcome)
    requires
        outcome is Installed || step is Remove,
    ensures
        ({
            let (after, lines) = after_step(entry, step, outcome);
            &&& after.actions.len() == entry.actions.len() + 1
            &&& lines.len() > 0
            &&& lines.last() == own(after.actions.last().log_message())
        }),
{
}

} // verus!
