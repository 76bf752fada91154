//! What to do with one archive entry, and with a backup file once it is laid down.
//!
//! Both questions are answered from plain facts. Nothing here touches the filesystem, so the
//! rules can be read as a table.

use vstd::prelude::*;

use crate::text;

verus! {

/// What the archive says an entry is.
#[derive(Clone, Copy, Debug, Eq, PartialEq, Structural)]
pub enum EntryKind {
    /// A directory.
    Directory,
    /// A regular file, symlink, device node or anything else.
    Other,
}

/// What is at the destination right now, from an `lstat`.
///
/// A symlink to a directory is [`Existing::Other`].
#[derive(Clone, Copy, Debug, Eq, PartialEq, Structural)]
pub enum Existing {
    /// Nothing is there.
    Absent,
    /// A directory.
    Directory,
    /// A regular file, symlink, device node or anything else.
    Other,
}

/// Why an entry is extracted next to the existing file instead of over it.
#[derive(Clone, Debug, Eq, PartialEq)]
pub enum PacnewReason {
    /// The path matches a `NoUpgrade` pattern, so the installed file is never replaced.
    NoUpgrade,
    /// The path is a backup file, so the user may have edited it.
    Backup {
        /// The hash the old package recorded for this file, if it had one.
        original_hash: Option<String>,
    },
}

/// Why an entry cannot be extracted at all.
#[derive(Clone, Copy, Debug, Eq, PartialEq, Structural)]
pub enum RefuseReason {
    /// A directory is in the way of something else.
    DirectoryInTheWay,
}

/// Why an entry is skipped.
#[derive(Clone, Copy, Debug, Eq, PartialEq, Structural)]
pub enum SkipReason {
    /// The path matches a `NoExtract` pattern.
    NoExtract,
    /// The directory already exists, so there is nothing to create.
    DirectoryExists,
    /// The archive holds an entry the package's own file list does not mention.
    NotInFileList,
}

/// What to do with an entry.
#[derive(Clone, Debug, Eq, PartialEq)]
pub enum Disposition {
    /// Extract it over the destination.
    Extract,
    /// Extract it to `<destination>.pacnew`.
    ExtractAsPacnew(PacnewReason),
    /// Do not extract it.
    Skip(SkipReason),
    /// Refuse, and fail the transaction.
    Refuse(RefuseReason),
}

/// What a [`PacnewReason`] says.
pub enum PacnewReasonView {
    /// [`PacnewReason::NoUpgrade`].
    NoUpgrade,
    /// [`PacnewReason::Backup`].
    Backup {
        /// The hash the old package recorded.
        original_hash: Option<Seq<char>>,
    },
}

/// What a [`Disposition`] says.
pub enum DispositionView {
    /// [`Disposition::Extract`].
    Extract,
    /// [`Disposition::ExtractAsPacnew`].
    ExtractAsPacnew(PacnewReasonView),
    /// [`Disposition::Skip`].
    Skip(SkipReason),
    /// [`Disposition::Refuse`].
    Refuse(RefuseReason),
}

impl View for PacnewReason {
    type V = PacnewReasonView;

    open spec fn view(&self) -> PacnewReasonView {
        match self {
            PacnewReason::NoUpgrade => PacnewReasonView::NoUpgrade,
            PacnewReason::Backup { original_hash } => PacnewReasonView::Backup {
                original_hash: text::maybe(*original_hash),
            },
        }
    }
}

impl View for Disposition {
    type V = DispositionView;

    open spec fn view(&self) -> DispositionView {
        match self {
            Disposition::Extract => DispositionView::Extract,
            Disposition::ExtractAsPacnew(reason) => DispositionView::ExtractAsPacnew(reason@),
            Disposition::Skip(reason) => DispositionView::Skip(*reason),
            Disposition::Refuse(reason) => DispositionView::Refuse(*reason),
        }
    }
}

/// Everything the decision depends on.
#[derive(Clone, Copy, Debug)]
pub struct EntryContext<'a> {
    /// What the archive says the entry is.
    pub entry: EntryKind,
    /// What is at the destination.
    pub existing: Existing,
    /// Whether the package's own file list mentions this path.
    pub in_file_list: bool,
    /// Whether the path matches a `NoExtract` pattern.
    pub no_extract: bool,
    /// Whether the path matches a `NoUpgrade` pattern.
    pub no_upgrade: bool,
    /// The hash the installed package recorded for this path, if it is one of its backup files.
    pub old_backup_hash: Option<&'a str>,
    /// Whether the new package lists this path as a backup file.
    pub new_is_backup: bool,
}

/// What an [`EntryContext`] says.
pub struct EntryContextView {
    /// What the archive says the entry is.
    pub entry: EntryKind,
    /// What is at the destination.
    pub existing: Existing,
    /// Whether the package's own file list mentions this path.
    pub in_file_list: bool,
    /// Whether the path matches a `NoExtract` pattern.
    pub no_extract: bool,
    /// Whether the path matches a `NoUpgrade` pattern.
    pub no_upgrade: bool,
    /// The hash the installed package recorded for this path.
    pub old_backup_hash: Option<Seq<char>>,
    /// Whether the new package lists this path as a backup file.
    pub new_is_backup: bool,
}

impl<'a> View for EntryContext<'a> {
    type V = EntryContextView;

    open spec fn view(&self) -> EntryContextView {
        EntryContextView {
            entry: self.entry,
            existing: self.existing,
            in_file_list: self.in_file_list,
            no_extract: self.no_extract,
            no_upgrade: self.no_upgrade,
            old_backup_hash: text::maybe_str(self.old_backup_hash),
            new_is_backup: self.new_is_backup,
        }
    }
}

/// What [`decide`] answers.
///
/// The file list comes first, then `NoExtract`, then what is in the way. Only a file that meets a
/// file is subject to `NoUpgrade` and to the backup rules, in that order.
pub open spec fn disposition(context: EntryContextView) -> DispositionView {
    if !context.in_file_list {
        DispositionView::Skip(SkipReason::NotInFileList)
    } else if context.no_extract {
        DispositionView::Skip(SkipReason::NoExtract)
    } else {
        match (context.existing, context.entry) {
            (Existing::Absent, _) => DispositionView::Extract,
            (Existing::Directory, EntryKind::Directory) => DispositionView::Skip(
                SkipReason::DirectoryExists,
            ),
            (Existing::Directory, EntryKind::Other) => DispositionView::Refuse(
                RefuseReason::DirectoryInTheWay,
            ),
            (Existing::Other, EntryKind::Directory) => DispositionView::Extract,
            (Existing::Other, EntryKind::Other) => if context.no_upgrade {
                DispositionView::ExtractAsPacnew(PacnewReasonView::NoUpgrade)
            } else if context.old_backup_hash is Some || context.new_is_backup {
                DispositionView::ExtractAsPacnew(
                    PacnewReasonView::Backup {
                        original_hash: context.old_backup_hash,
                    },
                )
            } else {
                DispositionView::Extract
            },
        }
    }
}

/// Decides what to do with one entry.
pub fn decide(context: &EntryContext<'_>) -> (r: Disposition)
    ensures
        r@ == disposition(context@),
{
    if !context.in_file_list {
        return Disposition::Skip(SkipReason::NotInFileList);
    }
    if context.no_extract {
        return Disposition::Skip(SkipReason::NoExtract);
    }
    match (context.existing, context.entry) {
        (Existing::Absent, _) => Disposition::Extract,
        (Existing::Directory, EntryKind::Directory) => Disposition::Skip(
            SkipReason::DirectoryExists,
        ),
        (Existing::Directory, EntryKind::Other) => Disposition::Refuse(
            RefuseReason::DirectoryInTheWay,
        ),
        (Existing::Other, EntryKind::Directory) => Disposition::Extract,
        (Existing::Other, EntryKind::Other) => {
            if context.no_upgrade {
                return Disposition::ExtractAsPacnew(PacnewReason::NoUpgrade);
            }
            if let Some(hash) = context.old_backup_hash {
                return Disposition::ExtractAsPacnew(
                    PacnewReason::Backup { original_hash: Some(hash.to_owned()) },
                );
            }
            if context.new_is_backup {
                return Disposition::ExtractAsPacnew(PacnewReason::Backup { original_hash: None });
            }
            Disposition::Extract
        },
    }
}

/// What to do with a `.pacnew` that was extracted for a backup file.
#[derive(Clone, Copy, Debug, Eq, PartialEq, Structural)]
pub enum BackupAction {
    /// Rename the `.pacnew` over the installed file.
    InstallNew,
    /// Keep the installed file as it is.
    KeepExisting {
        /// Whether the `.pacnew` should be removed. Only one this extraction created is.
        remove_pacnew: bool,
    },
    /// Keep both, and tell the user a `.pacnew` is waiting.
    KeepBoth,
}

/// What [`resolve_backup`] answers.
///
/// The questions, in order: does the user already have what the package ships; did the file not
/// change between the two packages; has the user left it untouched. An unknown hash answers none
/// of them.
pub open spec fn backup_action(
    local: Option<Seq<char>>,
    packaged: Option<Seq<char>>,
    original: Option<Seq<char>>,
    pacnew_is_new: bool,
) -> BackupAction {
    if local is Some && local == packaged {
        BackupAction::InstallNew
    } else if original is Some && original == packaged {
        BackupAction::KeepExisting { remove_pacnew: pacnew_is_new }
    } else if original is Some && original == local {
        BackupAction::InstallNew
    } else {
        BackupAction::KeepBoth
    }
}

/// Resolves a backup file three ways.
///
/// `local` is the hash of what is on disk, `packaged` of what the new package ships, and
/// `original` of what the old package shipped. `None` is a hash that is not known.
pub fn resolve_backup(
    local: Option<&str>,
    packaged: Option<&str>,
    original: Option<&str>,
    pacnew_is_new: bool,
) -> (r: BackupAction)
    ensures
        r == backup_action(
            text::maybe_str(local),
            text::maybe_str(packaged),
            text::maybe_str(original),
            pacnew_is_new,
        ),
{
    if text::both_same(local, packaged) {
        return BackupAction::InstallNew;
    }
    if text::both_same(original, packaged) {
        return BackupAction::KeepExisting { remove_pacnew: pacnew_is_new };
    }
    if text::both_same(original, local) {
        return BackupAction::InstallNew;
    }
    BackupAction::KeepBoth
}

/// `NoExtract` wins over every other rule but the file list's.
pub proof fn no_extract_wins(context: EntryContextView)
    requires
        context.in_file_list,
        context.no_extract,
    ensures
        disposition(context) == DispositionView::Skip(SkipReason::NoExtract),
{
}

/// Nothing is ever extracted over a directory.
pub proof fn a_directory_is_never_replaced(context: EntryContextView)
    requires
        context.existing == Existing::Directory,
    ensures
        disposition(context) is Skip || disposition(context) is Refuse,
{
}

/// A file under `NoUpgrade`, and a backup file, is never overwritten where it stands.
pub proof fn a_protected_file_is_never_overwritten(context: EntryContextView)
    requires
        context.existing == Existing::Other,
        context.entry == EntryKind::Other,
        context.no_upgrade || context.old_backup_hash is Some || context.new_is_backup,
    ensures
        disposition(context) !is Extract,
{
}

/// A file the user edited, or one whose contents are not known, is never overwritten: the new
/// file goes in only over what is already the same, or over what the old package shipped.
pub proof fn an_edited_backup_is_never_overwritten(
    local: Option<Seq<char>>,
    packaged: Option<Seq<char>>,
    original: Option<Seq<char>>,
    pacnew_is_new: bool,
)
    requires
        local is None || (local != packaged && local != original),
    ensures
        backup_action(local, packaged, original, pacnew_is_new) !is InstallNew,
{
}

/// A `.pacnew` this extraction did not create is never removed.
pub proof fn an_older_pacnew_is_never_removed(
    local: Option<Seq<char>>,
    packaged: Option<Seq<char>>,
    original: Option<Seq<char>>,
)
    ensures
        backup_action(local, packaged, original, false) != (BackupAction::KeepExisting {
            remove_pacnew: true,
        }),
{
}

} // verus!
