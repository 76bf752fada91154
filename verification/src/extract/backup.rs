//! Resolving a backup file whose `.pacnew` has just been written.

use vstd::prelude::*;

use super::apply::{diverted, pacnew_path};
use super::decision::{backup_action, resolve_backup, BackupAction};
use crate::text;

verus! {

/// What happened to a backup file.
#[derive(Clone, Debug, Eq, PartialEq)]
pub enum BackupOutcome {
    /// The packaged version was moved into place.
    InstalledNew,
    /// The user's file was kept.
    KeptExisting {
        /// Whether the `.pacnew` was removed as redundant.
        pacnew_removed: bool,
    },
    /// Both remain; the user has to merge them.
    KeptBoth {
        /// The `.pacnew` left on disk, for reporting.
        pacnew: String,
    },
}

/// What a [`BackupOutcome`] says.
pub enum BackupOutcomeView {
    /// [`BackupOutcome::InstalledNew`].
    InstalledNew,
    /// [`BackupOutcome::KeptExisting`].
    KeptExisting {
        /// Whether the `.pacnew` was removed.
        pacnew_removed: bool,
    },
    /// [`BackupOutcome::KeptBoth`].
    KeptBoth {
        /// The `.pacnew` left on disk.
        pacnew: Seq<char>,
    },
}

impl View for BackupOutcome {
    type V = BackupOutcomeView;

    open spec fn view(&self) -> BackupOutcomeView {
        match self {
            BackupOutcome::InstalledNew => BackupOutcomeView::InstalledNew,
            BackupOutcome::KeptExisting { pacnew_removed } => BackupOutcomeView::KeptExisting {
                pacnew_removed: *pacnew_removed,
            },
            BackupOutcome::KeptBoth { pacnew } => BackupOutcomeView::KeptBoth { pacnew: pacnew@ },
        }
    }
}

/// What hashing one file gave.
#[derive(Clone, Debug)]
pub enum Hashed {
    /// Its hash.
    Known(String),
    /// It is not there.
    Missing,
    /// It could not be read, so its hash is unknown.
    Unreadable,
}

/// The hash, where one is known. An unknown hash is neither absent nor equal to anything; either
/// way [`resolve_backup`] is told that there is none, and keeps the user's file.
pub open spec fn hash_of(hashed: Hashed) -> Option<Seq<char>> {
    match hashed {
        Hashed::Known(hash) => Some(hash@),
        _ => None,
    }
}

/// The result of resolving one backup file.
#[derive(Debug)]
pub struct Resolution {
    /// What is to be done with the two files.
    pub action: BackupAction,
    /// What has happened once that is done.
    pub outcome: BackupOutcome,
    /// The hash to record in `%BACKUP%`: always that of what the package shipped, even when the
    /// user's file was kept. The next upgrade reads it back as its baseline.
    pub recorded_hash: Option<String>,
    /// Whether a hash could not be computed.
    pub unreadable: bool,
}

/// What an action comes to once it is carried out.
pub open spec fn outcome_of(action: BackupAction, path: Seq<char>) -> BackupOutcomeView {
    match action {
        BackupAction::InstallNew => BackupOutcomeView::InstalledNew,
        BackupAction::KeepExisting { remove_pacnew } => BackupOutcomeView::KeptExisting {
            pacnew_removed: remove_pacnew,
        },
        BackupAction::KeepBoth => BackupOutcomeView::KeptBoth { pacnew: diverted(path) },
    }
}

/// What a [`Resolution`] says.
pub struct ResolutionView {
    /// What is to be done with the two files.
    pub action: BackupAction,
    /// What has happened once that is done.
    pub outcome: BackupOutcomeView,
    /// The hash to record.
    pub recorded_hash: Option<Seq<char>>,
    /// Whether a hash could not be computed.
    pub unreadable: bool,
}

impl View for Resolution {
    type V = ResolutionView;

    open spec fn view(&self) -> ResolutionView {
        ResolutionView {
            action: self.action,
            outcome: self.outcome@,
            recorded_hash: text::maybe(self.recorded_hash),
            unreadable: self.unreadable,
        }
    }
}

/// How a backup file is resolved.
pub open spec fn resolution(
    path: Seq<char>,
    local: Hashed,
    packaged: Hashed,
    original_hash: Option<Seq<char>>,
    pacnew_is_new: bool,
) -> ResolutionView {
    let action = backup_action(hash_of(local), hash_of(packaged), original_hash, pacnew_is_new);
    ResolutionView {
        action,
        outcome: outcome_of(action, path),
        recorded_hash: hash_of(packaged),
        unreadable: local is Unreadable || packaged is Unreadable,
    }
}

/// Resolves the backup file at `path`, given the hashes of the file that is there and of its
/// `.pacnew`.
///
/// `original_hash` is what the currently installed package recorded for this path, or `None` if it
/// did not have one.
pub fn resolve(
    path: &str,
    local: Hashed,
    packaged: Hashed,
    original_hash: Option<&str>,
    pacnew_is_new: bool,
) -> (r: Resolution)
    ensures
        r@ == resolution(
            path@,
            local,
            packaged,
            text::maybe_str(original_hash),
            pacnew_is_new,
        ),
{
    let unreadable = matches!(local, Hashed::Unreadable) || matches!(packaged, Hashed::Unreadable);
    let ours = match &local {
        Hashed::Known(hash) => Some(hash.as_str()),
        _ => None,
    };
    let theirs = match &packaged {
        Hashed::Known(hash) => Some(hash.as_str()),
        _ => None,
    };
    let action = resolve_backup(ours, theirs, original_hash, pacnew_is_new);
    let outcome = match action {
        BackupAction::InstallNew => BackupOutcome::InstalledNew,
        BackupAction::KeepExisting { remove_pacnew } => BackupOutcome::KeptExisting {
            pacnew_removed: remove_pacnew,
        },
        BackupAction::KeepBoth => BackupOutcome::KeptBoth { pacnew: pacnew_path(path) },
    };
    let recorded_hash = match packaged {
        Hashed::Known(hash) => Some(hash),
        _ => None,
    };
    Resolution { action, outcome, recorded_hash, unreadable }
}

} // verus!
