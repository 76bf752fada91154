//! What can go wrong while a transaction is carried out.
//!
//! A failure of the system or of a neighbouring component is carried as the words it gave.

use vstd::prelude::*;

use crate::conflict::FileConflict;
use crate::extract::decision::RefuseReason;
use crate::text;

verus! {

broadcast use crate::text::group_lists;

/// A result with the crate's error.
pub type Result<T> = core::result::Result<T, Error>;

/// How many file conflicts an error names before it counts the rest.
pub const MAX_SHOWN: usize = 10;

/// What was being done when the system refused.
#[derive(Clone, Copy, Debug, Eq, Hash, PartialEq, Structural)]
pub enum IoAction {
    /// Asking what a path is.
    Metadata,
    /// Opening a file.
    Open,
    /// Reading from it.
    Read,
    /// Creating a directory.
    CreateDir,
    /// Decompressing a package.
    Decompress,
    /// Creating a file.
    Create,
    /// Writing to it.
    Write,
    /// Removing a path.
    Remove,
    /// Renaming one path onto another.
    Rename,
    /// Flushing to disk.
    Sync,
    /// Changing ownership.
    Chown,
}

impl IoAction {
    /// The verb that "failed to" is followed by.
    pub open spec fn verb(self) -> Seq<char> {
        match self {
            IoAction::Metadata => "stat"@,
            IoAction::Open => "open"@,
            IoAction::Read => "read"@,
            IoAction::CreateDir => "create directory"@,
            IoAction::Decompress => "decompress"@,
            IoAction::Create => "create"@,
            IoAction::Write => "write"@,
            IoAction::Remove => "remove"@,
            IoAction::Rename => "rename onto"@,
            IoAction::Sync => "flush to disk"@,
            IoAction::Chown => "change ownership of"@,
        }
    }

    /// The verb that "failed to" is followed by.
    pub fn as_str(self) -> (r: &'static str)
        ensures
            r@ == self.verb(),
    {
        match self {
            IoAction::Metadata => "stat",
            IoAction::Open => "open",
            IoAction::Read => "read",
            IoAction::CreateDir => "create directory",
            IoAction::Decompress => "decompress",
            IoAction::Create => "create",
            IoAction::Write => "write",
            IoAction::Remove => "remove",
            IoAction::Rename => "rename onto",
            IoAction::Sync => "flush to disk",
            IoAction::Chown => "change ownership of",
        }
    }
}

/// A bound on what a package or a file may cost.
#[derive(Clone, Copy, Debug, Eq, PartialEq, Structural)]
pub enum Limit {
    /// How large a package file may be.
    CompressedSize,
    /// How large a package may be once inflated.
    InflatedSize,
    /// How many members a package may hold.
    MemberCount,
    /// How large a backup file may be.
    BackupSize,
    /// How large a merge base may be.
    MergeBaseSize,
}

impl Limit {
    /// What the bound is called.
    pub open spec fn label(self) -> Seq<char> {
        match self {
            Limit::CompressedSize => "compressed size"@,
            Limit::InflatedSize => "inflated size"@,
            Limit::MemberCount => "member count"@,
            Limit::BackupSize => "backup file size"@,
            Limit::MergeBaseSize => "merge base size"@,
        }
    }

    /// What the bound is called.
    pub fn as_str(self) -> (r: &'static str)
        ensures
            r@ == self.label(),
    {
        match self {
            Limit::CompressedSize => "compressed size",
            Limit::InflatedSize => "inflated size",
            Limit::MemberCount => "member count",
            Limit::BackupSize => "backup file size",
            Limit::MergeBaseSize => "merge base size",
        }
    }
}

/// Why a transaction, or a part of it, failed.
#[derive(Debug)]
pub enum Error {
    /// The system refused.
    Io {
        /// The path.
        path: String,
        /// What was being done.
        action: IoAction,
        /// The system's reason.
        source: String,
    },
    /// No source has a package.
    NotAvailable {
        /// The package's file name.
        file_name: String,
        /// Where it was looked for.
        searched: Vec<String>,
        /// What was found and could not be used, each in words.
        skipped: Vec<String>,
    },
    /// A member's path must not be extracted.
    UnsafeArchivePath {
        /// The path.
        path: String,
        /// Why not.
        reason: String,
    },
    /// A member's path leads out of the root.
    PathEscapesRoot {
        /// The path.
        path: String,
        /// Where it leads out.
        component: String,
        /// Why that counts as outside.
        reason: String,
    },
    /// A bound was exceeded.
    PackageLimitExceeded {
        /// The package or file.
        path: String,
        /// The bound.
        limit: Limit,
        /// Its value.
        max: u64,
    },
    /// A package is compressed in an unknown way, or is no package.
    UnsupportedCompression {
        /// The package.
        path: String,
    },
    /// A member cannot be extracted.
    ExtractionRefused {
        /// The member's path.
        path: String,
        /// Why not.
        reason: RefuseReason,
    },
    /// The transaction would overwrite files.
    FileConflicts {
        /// The conflicts.
        conflicts: Vec<FileConflict>,
    },
    /// An installed entry cannot be read.
    UnreadableEntry {
        /// The entry.
        entry: String,
        /// Why not.
        reason: String,
    },
    /// A hook stopped the transaction.
    HookAborted {
        /// The hook's file name.
        hook: String,
        /// What its command printed.
        output: Vec<String>,
    },
    /// A package's signature is not good enough.
    SignatureRejected {
        /// The package.
        package: String,
        /// Why not.
        reason: String,
    },
    /// A package's signature could not be checked.
    SignatureUncheckable {
        /// The package.
        package: String,
        /// Why not.
        reason: String,
    },
    /// The database could not be changed.
    Database {
        /// The words for it.
        message: String,
    },
    /// The local database cannot be opened.
    LocalDatabaseUnreadable {
        /// Where it is.
        path: String,
        /// Why not.
        source: String,
    },
    /// A file cannot be used as a package.
    UnusableSource {
        /// The file.
        path: String,
        /// Why not.
        reason: String,
    },
    /// A download failed.
    Download {
        /// The words for it.
        message: String,
    },
    /// A plan names something unknown.
    PlanInconsistent {
        /// What it names.
        id: usize,
    },
    /// A plan installs what no repository has.
    NoRepositoryCandidate {
        /// The package.
        name: String,
    },
    /// A repository's package cannot be read.
    RepositoryPackageUnreadable {
        /// The package.
        name: String,
        /// Why not.
        source: String,
    },
    /// A package's name and version make no entry.
    InvalidEntryName {
        /// The package.
        name: String,
        /// Why not.
        reason: String,
    },
    /// The keyring cannot be opened.
    KeyringUnusable {
        /// Where it is.
        path: String,
        /// Why not.
        source: String,
    },
}

/// The words for each of the first conflicts.
pub open spec fn conflict_words(conflicts: Seq<FileConflict>) -> Seq<Seq<char>> {
    Seq::new(
        if conflicts.len() > MAX_SHOWN {
            MAX_SHOWN as nat
        } else {
            conflicts.len()
        },
        |i: int| conflicts[i]@.words(),
    )
}

impl Error {
    /// The words for the error.
    pub open spec fn words(self) -> Seq<char> {
        match self {
            Error::Io { path, action, source: _ } => "failed to "@ + action.verb() + " "@ + path@,
            Error::NotAvailable { file_name, searched, skipped } => file_name@
                + " is not available from any configured source (searched "@ + text::listing(
                text::texts(searched@),
                ", "@,
            ) + (if skipped@.len() == 0 {
                Seq::empty()
            } else {
                "; rejected "@ + text::listing(text::texts(skipped@), ", "@)
            }) + ")"@,
            Error::UnsafeArchivePath { path, reason } => path@ + " is not a safe path to extract: "@
                + reason@,
            Error::PathEscapesRoot { path, component, reason } => path@
                + " would be extracted outside the installation root: "@ + component@ + " — "@
                + reason@,
            Error::PackageLimitExceeded { path, limit, max } => path@ + " exceeds the "@
                + limit.label() + " limit of "@ + text::dec(max as nat),
            Error::UnsupportedCompression { path } => path@
                + " does not use a supported compression format"@,
            Error::ExtractionRefused { path, reason } => "cannot extract "@ + path@ + ": "@
                + match reason {
                RefuseReason::DirectoryInTheWay => "DirectoryInTheWay"@,
            },
            Error::FileConflicts { conflicts } => "the transaction would overwrite "@ + text::dec(
                conflicts@.len(),
            ) + " file(s) it does not own:\n  "@ + text::listing(
                conflict_words(conflicts@),
                "\n  "@,
            ) + (if conflicts@.len() > MAX_SHOWN {
                "\n  ... and "@ + text::dec((conflicts@.len() - MAX_SHOWN) as nat) + " more"@
            } else {
                Seq::empty()
            }),
            Error::UnreadableEntry { entry, reason } => "the installed entry "@ + entry@
                + " cannot be read: "@ + reason@,
            Error::HookAborted { hook, output } => "the transaction was stopped by the hook "@
                + hook@ + ", which sets AbortOnFail"@ + (if output@.len() == 0 {
                Seq::empty()
            } else {
                "\n  "@ + text::listing(text::texts(output@), "\n  "@)
            }),
            Error::SignatureRejected { package, reason } => package@ + ": "@ + reason@,
            Error::SignatureUncheckable { package, reason } => "cannot check the signature of "@
                + package@ + ": "@ + reason@,
            Error::Database { message } => message@,
            Error::LocalDatabaseUnreadable { path, source: _ } => "the local database at "@ + path@
                + " cannot be opened"@,
            Error::UnusableSource { path, reason } => path@ + " is not a usable package source: "@
                + reason@,
            Error::Download { message } => message@,
            Error::PlanInconsistent { id } =>
                "the plan names a package the universe does not know (id "@ + text::dec(id as nat)
                + ") — this is a bug"@,
            Error::NoRepositoryCandidate { name } => name@
                + " has no repository candidate to install from — this is a bug"@,
            Error::RepositoryPackageUnreadable { name, source: _ } => name@
                + " could not be read from its repository"@,
            Error::InvalidEntryName { name, reason } => name@ + " has no usable entry name: "@
                + reason@,
            Error::KeyringUnusable { path, source: _ } => "cannot open the GnuPG keyring at "@
                + path@,
        }
    }

    /// The words for the error.
    pub fn message(&self) -> (r: String)
        ensures
            r@ == self.words(),
    {
        match self {
            Error::Io { path, action, source: _ } => {
                let mut out = "failed to ".to_owned();
                out.push_str(action.as_str());
                out.push_str(" ");
                out.push_str(path.as_str());
                out
            },
            Error::NotAvailable { file_name, searched, skipped } => {
                let mut out = file_name.clone();
                out.push_str(" is not available from any configured source (searched ");
                text::push_listing(&mut out, searched, ", ");
                let mut rejected = String::new();
                if skipped.len() > 0 {
                    rejected = "; rejected ".to_owned();
                    text::push_listing(&mut rejected, skipped, ", ");
                } else {
                    assert(rejected@ =~= Seq::<char>::empty());
                }
                out.push_str(rejected.as_str());
                out.push_str(")");
                out
            },
            Error::UnsafeArchivePath { path, reason } => {
                named(path, " is not a safe path to extract: ", reason)
            },
            Error::PathEscapesRoot { path, component, reason } => {
                let mut out = path.clone();
                out.push_str(" would be extracted outside the installation root: ");
                out.push_str(component.as_str());
                out.push_str(" — ");
                out.push_str(reason.as_str());
                out
            },
            Error::PackageLimitExceeded { path, limit, max } => {
                let mut out = path.clone();
                out.push_str(" exceeds the ");
                out.push_str(limit.as_str());
                out.push_str(" limit of ");
                text::push_decimal(&mut out, *max);
                out
            },
            Error::UnsupportedCompression { path } => {
                let mut out = path.clone();
                out.push_str(" does not use a supported compression format");
                out
            },
            Error::ExtractionRefused { path, reason } => {
                let mut out = "cannot extract ".to_owned();
                out.push_str(path.as_str());
                out.push_str(": ");
                match reason {
                    RefuseReason::DirectoryInTheWay => {
                        out.push_str("DirectoryInTheWay");
                    },
                }
                out
            },
            Error::FileConflicts { conflicts } => {
                let mut out = "the transaction would overwrite ".to_owned();
                text::push_decimal(&mut out, conflicts.len() as u64);
                out.push_str(" file(s) it does not own:\n  ");
                let shown = first_words(conflicts);
                text::push_listing(&mut out, &shown, "\n  ");
                let mut rest = String::new();
                if conflicts.len() > MAX_SHOWN {
                    rest = "\n  ... and ".to_owned();
                    text::push_decimal(&mut rest, (conflicts.len() - MAX_SHOWN) as u64);
                    rest.push_str(" more");
                } else {
                    assert(rest@ =~= Seq::<char>::empty());
                }
                out.push_str(rest.as_str());
                out
            },
            Error::UnreadableEntry { entry, reason } => {
                let mut out = "the installed entry ".to_owned();
                out.push_str(entry.as_str());
                out.push_str(" cannot be read: ");
                out.push_str(reason.as_str());
                out
            },
            Error::HookAborted { hook, output } => {
                let mut out = "the transaction was stopped by the hook ".to_owned();
                out.push_str(hook.as_str());
                out.push_str(", which sets AbortOnFail");
                let mut printed = String::new();
                if output.len() > 0 {
                    printed = "\n  ".to_owned();
                    text::push_listing(&mut printed, output, "\n  ");
                } else {
                    assert(printed@ =~= Seq::<char>::empty());
                }
                out.push_str(printed.as_str());
                out
            },
            Error::SignatureRejected { package, reason } => named(package, ": ", reason),
            Error::SignatureUncheckable { package, reason } => {
                let mut out = "cannot check the signature of ".to_owned();
                out.push_str(package.as_str());
                out.push_str(": ");
                out.push_str(reason.as_str());
                out
            },
            Error::Database { message } => message.clone(),
            Error::LocalDatabaseUnreadable { path, source: _ } => {
                let mut out = "the local database at ".to_owned();
                out.push_str(path.as_str());
                out.push_str(" cannot be opened");
                out
            },
            Error::UnusableSource { path, reason } => {
                named(path, " is not a usable package source: ", reason)
            },
            Error::Download { message } => message.clone(),
            Error::PlanInconsistent { id } => {
                let mut out = "the plan names a package the universe does not know (id ".to_owned();
                text::push_decimal(&mut out, *id as u64);
                out.push_str(") — this is a bug");
                out
            },
            Error::NoRepositoryCandidate { name } => {
                let mut out = name.clone();
                out.push_str(" has no repository candidate to install from — this is a bug");
                out
            },
            Error::RepositoryPackageUnreadable { name, source: _ } => {
                let mut out = name.clone();
                out.push_str(" could not be read from its repository");
                out
            },
            Error::InvalidEntryName { name, reason } => {
                named(name, " has no usable entry name: ", reason)
            },
            Error::KeyringUnusable { path, source: _ } => {
                let mut out = "cannot open the GnuPG keyring at ".to_owned();
                out.push_str(path.as_str());
                out
            },
        }
    }
}

/// Two texts with words between them.
fn named(subject: &String, between: &str, reason: &String) -> (r: String)
    ensures
        r@ == subject@ + between@ + reason@,
{
    let mut out = subject.clone();
    out.push_str(between);
    out.push_str(reason.as_str());
    out
}

/// The words for each of the first conflicts.
fn first_words(conflicts: &Vec<FileConflict>) -> (r: Vec<String>)
    ensures
        text::texts(r@) == conflict_words(conflicts@),
{
    let mut out: Vec<String> = Vec::new();
    let mut i: usize = 0;
    let ghost all = conflict_words(conflicts@);
    assert(text::texts(out@) =~= all.take(0));
    while i < conflicts.len() && i < MAX_SHOWN
        invariant
            i <= conflicts.len(),
            i <= MAX_SHOWN,
            all == conflict_words(conflicts@),
            text::texts(out@) == all.take(i as int),
        decreases conflicts.len() - i,
    {
        out.push(conflicts[i].message());
        assert(all.take(i + 1) =~= all.take(i as int).push(all[i as int]));
        i += 1;
    }
    assert(all.take(i as int) =~= all);
    out
}

} // verus!
