//! Replacing a file so that it is never observed half-written.
//!
//! The contents go to a temporary file beside it, which is flushed to disk and renamed over the
//! target; then the directory is flushed. A crash leaves either the old file or the whole new one.
//!
//! [`AtomicWrite`] says what to do next and is told what came of it.

use vstd::prelude::*;

use crate::error::{Error, IoAction};
use crate::paths;
use crate::text;

verus! {

/// What is to be done next.
#[derive(Clone, Debug, Eq, PartialEq)]
pub enum Action {
    /// Create the temporary file, which must not be there and must not be a link.
    Create,
    /// Remove the temporary file.
    Remove,
    /// Write the contents to the temporary file and flush them to disk.
    WriteAndSync,
    /// Rename the temporary file over the target.
    Rename,
    /// Flush the directory to disk.
    SyncDirectory,
}

/// What came of it.
#[derive(Clone, Debug, Eq, PartialEq)]
pub enum Event {
    /// It is done.
    Done,
    /// The system refused because something is there already, and in which words.
    AlreadyThere(String),
    /// The system refused, and why.
    Failed(String),
}

/// How far the write has got.
#[derive(Debug)]
pub enum Stage {
    /// The temporary file is being created.
    Creating,
    /// A leftover is being removed.
    Clearing,
    /// The temporary file is being created after a leftover was removed.
    CreatingAgain,
    /// The contents are being written.
    Writing,
    /// The temporary file is being renamed.
    Renaming,
    /// The directory is being flushed.
    Syncing,
    /// The temporary file is being removed after a failure, which is then reported.
    Discarding(Error),
    /// Nothing is left to do.
    Over,
}

/// What comes next.
#[derive(Debug)]
pub enum Turn {
    /// Something is to be done.
    Act(Action),
    /// The write is over.
    Finished(Result<(), Error>),
}

/// What went wrong, apart from the error that says it.
pub enum Fault {
    /// The temporary file could not be created.
    NotCreated,
    /// A leftover could not be removed.
    NotCleared,
    /// The contents could not be written.
    NotWritten,
    /// The temporary file could not be renamed.
    NotRenamed,
    /// The directory could not be flushed.
    NotSynced,
}

/// One write.
#[derive(Debug)]
pub struct AtomicWrite {
    path: String,
    stage: Stage,
}

/// The temporary file beside a target.
pub open spec fn temporary_of(path: Seq<char>) -> Seq<char> {
    path + ".new"@
}

/// The directory that holds a target.
pub open spec fn directory_of(path: Seq<char>) -> Seq<char> {
    if paths::spec_parent(path).len() == 0 {
        "."@
    } else {
        paths::spec_parent(path)
    }
}

/// Whether an error says what went wrong.
pub open spec fn is_fault(error: Error, path: Seq<char>, fault: Fault, reason: Seq<char>) -> bool {
    error matches Error::Io { path: at, action, source } && source@ == reason && match fault {
        Fault::NotCreated => at@ == temporary_of(path) && action == IoAction::Create,
        Fault::NotCleared => at@ == temporary_of(path) && action == IoAction::Remove,
        Fault::NotWritten => at@ == temporary_of(path) && action == IoAction::Write,
        Fault::NotRenamed => at@ == path && action == IoAction::Rename,
        Fault::NotSynced => at@ == directory_of(path) && action == IoAction::Sync,
    }
}

/// The system's words for an event that is no success.
pub open spec fn reason_of(event: Event) -> Seq<char> {
    match event {
        Event::Done => Seq::empty(),
        Event::AlreadyThere(reason) => reason@,
        Event::Failed(reason) => reason@,
    }
}

impl AtomicWrite {
    /// The target.
    pub closed spec fn spec_path(self) -> Seq<char> {
        self.path@
    }

    /// How far the write has got.
    pub closed spec fn spec_stage(self) -> Stage {
        self.stage
    }

    /// Begins to replace the file at `path`. The first thing to do is [`Action::Create`].
    pub fn begin(path: String) -> (r: (Self, Action))
        ensures
            r.0.spec_path() == path@,
            r.0.spec_stage() is Creating,
            r.1 == Action::Create,
    {
        (AtomicWrite { path, stage: Stage::Creating }, Action::Create)
    }

    /// The temporary file.
    pub fn temporary(&self) -> (r: String)
        ensures
            r@ == temporary_of(self.spec_path()),
    {
        let mut out = self.path.clone();
        out.push_str(".new");
        out
    }

    /// The directory that holds the target.
    pub fn directory(&self) -> (r: String)
        ensures
            r@ == directory_of(self.spec_path()),
    {
        let all = text::chars(self.path.as_str());
        let parent = paths::parent(all.as_slice());
        if parent.len() == 0 {
            ".".to_owned()
        } else {
            text::text(parent)
        }
    }

    /// The error for something that went wrong.
    fn error(&self, action: IoAction, reason: String) -> (r: Error)
        ensures
            action == IoAction::Create ==> is_fault(
                r,
                self.spec_path(),
                Fault::NotCreated,
                reason@,
            ),
            action == IoAction::Remove ==> is_fault(
                r,
                self.spec_path(),
                Fault::NotCleared,
                reason@,
            ),
            action == IoAction::Write ==> is_fault(
                r,
                self.spec_path(),
                Fault::NotWritten,
                reason@,
            ),
            action == IoAction::Rename ==> is_fault(
                r,
                self.spec_path(),
                Fault::NotRenamed,
                reason@,
            ),
            action == IoAction::Sync ==> is_fault(r, self.spec_path(), Fault::NotSynced, reason@),
    {
        let path = match action {
            IoAction::Rename => self.path.clone(),
            IoAction::Sync => self.directory(),
            _ => self.temporary(),
        };
        Error::Io { path, action, source: reason }
    }

    /// Goes on, given what came of what was to be done.
    ///
    /// A leftover of an earlier write is removed once, and its place taken. After a failure to write
    /// or to rename the temporary file is removed, whatever comes of that, and the failure reported.
    /// The target is replaced only by contents that are on disk, and success is reported only once
    /// the directory is too.
    pub fn advance(&mut self, event: Event) -> (r: Turn)
        ensures
            final(self).spec_path() == old(self).spec_path(),
            r == Turn::Act(Action::Rename) ==> old(self).spec_stage() is Writing && event
                == Event::Done,
            r == Turn::Finished(Ok(())) ==> (old(self).spec_stage() is Syncing && event
                == Event::Done) || old(self).spec_stage() is Over,
            match (old(self).spec_stage(), event) {
                (Stage::Creating, Event::Done) => final(self).spec_stage() is Writing && r
                    == Turn::Act(Action::WriteAndSync),
                (Stage::Creating, Event::AlreadyThere(_)) => final(self).spec_stage() is Clearing && r
                    == Turn::Act(Action::Remove),
                (Stage::Creating, Event::Failed(reason)) => ends_with(
                    *old(self),
                    *final(self),
                    r,
                    Fault::NotCreated,
                    reason@,
                ),
                (Stage::Clearing, Event::Done) => final(self).spec_stage() is CreatingAgain && r
                    == Turn::Act(Action::Create),
                (Stage::Clearing, _) => ends_with(
                    *old(self),
                    *final(self),
                    r,
                    Fault::NotCleared,
                    reason_of(event),
                ),
                (Stage::CreatingAgain, Event::Done) => final(self).spec_stage() is Writing && r
                    == Turn::Act(Action::WriteAndSync),
                (Stage::CreatingAgain, _) => ends_with(
                    *old(self),
                    *final(self),
                    r,
                    Fault::NotCreated,
                    reason_of(event),
                ),
                (Stage::Writing, Event::Done) => final(self).spec_stage() is Renaming && r
                    == Turn::Act(Action::Rename),
                (Stage::Writing, _) => discards(
                    *old(self),
                    *final(self),
                    r,
                    Fault::NotWritten,
                    reason_of(event),
                ),
                (Stage::Renaming, Event::Done) => final(self).spec_stage() is Syncing && r
                    == Turn::Act(Action::SyncDirectory),
                (Stage::Renaming, _) => discards(
                    *old(self),
                    *final(self),
                    r,
                    Fault::NotRenamed,
                    reason_of(event),
                ),
                (Stage::Syncing, Event::Done) => final(self).spec_stage() is Over && r
                    == Turn::Finished(Ok(())),
                (Stage::Syncing, _) => ends_with(
                    *old(self),
                    *final(self),
                    r,
                    Fault::NotSynced,
                    reason_of(event),
                ),
                (Stage::Discarding(error), _) => final(self).spec_stage() is Over && r
                    == Turn::Finished(Err(error)),
                (Stage::Over, _) => final(self).spec_stage() is Over && r == Turn::Finished(
                    Ok(()),
                ),
            },
    {
        let mut stage = Stage::Over;
        std::mem::swap(&mut stage, &mut self.stage);
        let done = matches!(event, Event::Done);
        let there = matches!(event, Event::AlreadyThere(_));
        let reason = match event {
            Event::Done => String::new(),
            Event::AlreadyThere(reason) => reason,
            Event::Failed(reason) => reason,
        };
        match stage {
            Stage::Creating => {
                if done {
                    self.stage = Stage::Writing;
                    return Turn::Act(Action::WriteAndSync);
                }
                if there {
                    self.stage = Stage::Clearing;
                    return Turn::Act(Action::Remove);
                }
                Turn::Finished(Err(self.error(IoAction::Create, reason)))
            },
            Stage::Clearing => {
                if done {
                    self.stage = Stage::CreatingAgain;
                    return Turn::Act(Action::Create);
                }
                Turn::Finished(Err(self.error(IoAction::Remove, reason)))
            },
            Stage::CreatingAgain => {
                if done {
                    self.stage = Stage::Writing;
                    return Turn::Act(Action::WriteAndSync);
                }
                Turn::Finished(Err(self.error(IoAction::Create, reason)))
            },
            Stage::Writing => {
                if done {
                    self.stage = Stage::Renaming;
                    return Turn::Act(Action::Rename);
                }
                self.stage = Stage::Discarding(self.error(IoAction::Write, reason));
                Turn::Act(Action::Remove)
            },
            Stage::Renaming => {
                if done {
                    self.stage = Stage::Syncing;
                    return Turn::Act(Action::SyncDirectory);
                }
                self.stage = Stage::Discarding(self.error(IoAction::Rename, reason));
                Turn::Act(Action::Remove)
            },
            Stage::Syncing => {
                if done {
                    return Turn::Finished(Ok(()));
                }
                Turn::Finished(Err(self.error(IoAction::Sync, reason)))
            },
            Stage::Discarding(error) => Turn::Finished(Err(error)),
            Stage::Over => Turn::Finished(Ok(())),
        }
    }
}

/// Whether a write ends with a fault.
pub open spec fn ends_with(
    before: AtomicWrite,
    after: AtomicWrite,
    turn: Turn,
    fault: Fault,
    reason: Seq<char>,
) -> bool {
    &&& after.spec_stage() is Over
    &&& turn matches Turn::Finished(Err(error)) && is_fault(
        error,
        before.spec_path(),
        fault,
        reason,
    )
}

/// Whether a write discards its temporary file because of a fault.
pub open spec fn discards(
    before: AtomicWrite,
    after: AtomicWrite,
    turn: Turn,
    fault: Fault,
    reason: Seq<char>,
) -> bool {
    &&& after.spec_stage() matches Stage::Discarding(error) && is_fault(
        error,
        before.spec_path(),
        fault,
        reason,
    )
    &&& turn == Turn::Act(Action::Remove)
}

} // verus!
