//! Whether something on the filesystem blocks a package's path.
//!
//! The rules are tried in a fixed order, and the first that applies decides. A path no rule
//! resolves is a conflict.

use vstd::prelude::*;

use crate::extract::decision::Existing;
use crate::text;

verus! {

/// Why a path that exists is not a conflict.
#[derive(Clone, Debug, Eq, PartialEq)]
pub enum Resolution {
    /// Nothing is there.
    NotPresent,
    /// The package wants a directory there and finds one.
    DirectoryAlreadyThere,
    /// A directory takes the place of a file the installed version of the package owns.
    FileBecomesDirectory,
    /// A package this transaction removes owns it.
    RemovedByTransaction,
    /// Another package this transaction upgrades gives it up.
    ChangesOwner {
        /// The package that owned it.
        from: String,
    },
    /// A directory that holds only what this transaction takes away.
    DirectoryEmptiedByTransaction,
    /// An unowned file that the new package declares as a backup file.
    AdoptedBackupFile,
    /// The user released the path.
    Overwritten,
}

/// What conflict detection says of one path.
#[derive(Clone, Debug, Eq, PartialEq)]
pub enum Verdict {
    /// The path is blocked.
    Conflict,
    /// The path may be written.
    Resolved(Resolution),
}

/// What a [`Verdict`] says.
pub enum VerdictView {
    /// The conflict variant.
    Conflict,
    /// [`Resolution::NotPresent`].
    NotPresent,
    /// [`Resolution::DirectoryAlreadyThere`].
    DirectoryAlreadyThere,
    /// [`Resolution::FileBecomesDirectory`].
    FileBecomesDirectory,
    /// [`Resolution::RemovedByTransaction`].
    RemovedByTransaction,
    /// [`Resolution::ChangesOwner`].
    ChangesOwner {
        /// The package that owned the path.
        from: Seq<char>,
    },
    /// [`Resolution::DirectoryEmptiedByTransaction`].
    DirectoryEmptiedByTransaction,
    /// [`Resolution::AdoptedBackupFile`].
    AdoptedBackupFile,
    /// [`Resolution::Overwritten`].
    Overwritten,
}

impl View for Verdict {
    type V = VerdictView;

    open spec fn view(&self) -> VerdictView {
        match self {
            Verdict::Conflict => VerdictView::Conflict,
            Verdict::Resolved(resolution) => match resolution {
                Resolution::NotPresent => VerdictView::NotPresent,
                Resolution::DirectoryAlreadyThere => VerdictView::DirectoryAlreadyThere,
                Resolution::FileBecomesDirectory => VerdictView::FileBecomesDirectory,
                Resolution::RemovedByTransaction => VerdictView::RemovedByTransaction,
                Resolution::ChangesOwner { from } => VerdictView::ChangesOwner { from: from@ },
                Resolution::DirectoryEmptiedByTransaction =>
                    VerdictView::DirectoryEmptiedByTransaction,
                Resolution::AdoptedBackupFile => VerdictView::AdoptedBackupFile,
                Resolution::Overwritten => VerdictView::Overwritten,
            },
        }
    }
}

/// Whether a verdict covers everything below a directory too.
pub open spec fn covers_contents(verdict: VerdictView) -> bool {
    verdict is FileBecomesDirectory || verdict is RemovedByTransaction || verdict is ChangesOwner
}

impl Verdict {
    /// The package that gives the path up, if one does.
    pub fn changes_owner_from(&self) -> (r: Option<&str>)
        ensures
            match r {
                Some(from) => self@ == (VerdictView::ChangesOwner { from: from@ }),
                None => self@ !is ChangesOwner,
            },
    {
        match self {
            Verdict::Resolved(Resolution::ChangesOwner { from }) => Some(from.as_str()),
            _ => None,
        }
    }

    /// Whether the verdict covers everything below a directory too.
    pub fn skips_directory_contents(&self) -> (r: bool)
        ensures
            r == covers_contents(self@),
    {
        match self {
            Verdict::Resolved(Resolution::FileBecomesDirectory) => true,
            Verdict::Resolved(Resolution::RemovedByTransaction) => true,
            Verdict::Resolved(Resolution::ChangesOwner { .. }) => true,
            _ => false,
        }
    }

    /// Whether the path is blocked.
    pub fn is_conflict(&self) -> (r: bool)
        ensures
            r == (self@ is Conflict),
    {
        match self {
            Verdict::Conflict => true,
            _ => false,
        }
    }
}

/// Everything the rules ask about one path.
#[derive(Clone, Copy, Debug)]
pub struct FilesystemContext<'a> {
    /// Whether the package spells the path as a directory.
    pub package_says_directory: bool,
    /// What is there, without following a symlink.
    pub existing: Existing,
    /// Whether it is a directory once symlinks are followed.
    pub resolves_to_directory: bool,
    /// Whether the installed version of the package owns the path as a file.
    pub old_version_owns_file: bool,
    /// Whether a package this transaction removes owns the path.
    pub owned_by_removal: bool,
    /// The other package of this transaction whose installed version owns the path.
    pub changing_owner_from: Option<&'a str>,
    /// Whether everything below the directory goes away with this transaction.
    pub directory_emptied_by_transaction: bool,
    /// Whether the new package declares the path as a backup file.
    pub new_is_backup: bool,
    /// Whether any installed package owns the path.
    pub owned_by_anyone: bool,
    /// Whether the user released the path.
    pub overwrite: bool,
}

/// What a [`FilesystemContext`] says.
pub struct FilesystemContextView {
    /// Whether the package spells the path as a directory.
    pub package_says_directory: bool,
    /// What is there.
    pub existing: Existing,
    /// Whether it is a directory once symlinks are followed.
    pub resolves_to_directory: bool,
    /// Whether the installed version of the package owns the path as a file.
    pub old_version_owns_file: bool,
    /// Whether a package this transaction removes owns the path.
    pub owned_by_removal: bool,
    /// The other package of this transaction whose installed version owns the path.
    pub changing_owner_from: Option<Seq<char>>,
    /// Whether everything below the directory goes away with this transaction.
    pub directory_emptied_by_transaction: bool,
    /// Whether the new package declares the path as a backup file.
    pub new_is_backup: bool,
    /// Whether any installed package owns the path.
    pub owned_by_anyone: bool,
    /// Whether the user released the path.
    pub overwrite: bool,
}

impl<'a> View for FilesystemContext<'a> {
    type V = FilesystemContextView;

    open spec fn view(&self) -> FilesystemContextView {
        FilesystemContextView {
            package_says_directory: self.package_says_directory,
            existing: self.existing,
            resolves_to_directory: self.resolves_to_directory,
            old_version_owns_file: self.old_version_owns_file,
            owned_by_removal: self.owned_by_removal,
            changing_owner_from: text::maybe_str(self.changing_owner_from),
            directory_emptied_by_transaction: self.directory_emptied_by_transaction,
            new_is_backup: self.new_is_backup,
            owned_by_anyone: self.owned_by_anyone,
            overwrite: self.overwrite,
        }
    }
}

/// What [`decide`] answers: the first rule that applies.
pub open spec fn verdict(context: FilesystemContextView) -> VerdictView {
    if context.existing == Existing::Absent {
        VerdictView::NotPresent
    } else if context.package_says_directory && context.resolves_to_directory {
        VerdictView::DirectoryAlreadyThere
    } else if context.package_says_directory && context.old_version_owns_file {
        VerdictView::FileBecomesDirectory
    } else if context.owned_by_removal {
        VerdictView::RemovedByTransaction
    } else if context.changing_owner_from is Some {
        VerdictView::ChangesOwner { from: context.changing_owner_from->0 }
    } else if context.existing == Existing::Directory && context.directory_emptied_by_transaction {
        VerdictView::DirectoryEmptiedByTransaction
    } else if context.new_is_backup && !context.owned_by_anyone {
        VerdictView::AdoptedBackupFile
    } else if context.existing != Existing::Directory && context.overwrite {
        VerdictView::Overwritten
    } else {
        VerdictView::Conflict
    }
}

/// Decides whether a path is blocked.
pub fn decide(context: &FilesystemContext<'_>) -> (r: Verdict)
    ensures
        r@ == verdict(context@),
{
    if context.existing == Existing::Absent {
        return Verdict::Resolved(Resolution::NotPresent);
    }
    if context.package_says_directory {
        if context.resolves_to_directory {
            return Verdict::Resolved(Resolution::DirectoryAlreadyThere);
        }
        if context.old_version_owns_file {
            return Verdict::Resolved(Resolution::FileBecomesDirectory);
        }
    }
    if context.owned_by_removal {
        return Verdict::Resolved(Resolution::RemovedByTransaction);
    }
    if let Some(from) = context.changing_owner_from {
        return Verdict::Resolved(Resolution::ChangesOwner { from: from.to_owned() });
    }
    if context.existing == Existing::Directory && context.directory_emptied_by_transaction {
        return Verdict::Resolved(Resolution::DirectoryEmptiedByTransaction);
    }
    if context.new_is_backup && !context.owned_by_anyone {
        return Verdict::Resolved(Resolution::AdoptedBackupFile);
    }
    if context.existing != Existing::Directory && context.overwrite {
        return Verdict::Resolved(Resolution::Overwritten);
    }
    Verdict::Conflict
}

/// `--overwrite` never applies to a directory on disk.
pub proof fn overwrite_never_releases_a_directory(context: FilesystemContextView)
    requires
        context.existing == Existing::Directory,
    ensures
        verdict(context) !is Overwritten,
{
}

/// Only the last rule looks at `--overwrite`: releasing a path changes nothing but a conflict.
pub proof fn overwrite_is_the_last_resort(context: FilesystemContextView)
    ensures
        verdict(context) !is Conflict && verdict(context) !is Overwritten ==> verdict(context)
            == verdict(FilesystemContextView { overwrite: !context.overwrite, ..context }),
{
}

} // verus!
