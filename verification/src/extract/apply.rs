//! Carrying out a [`Disposition`]: which write it takes, with which mode, owner and time.
//!
//! The writes themselves go through a directory descriptor, never through a path. Ownership is
//! applied first and the mode after it, because changing a file's owner clears its set-id bits.

use vstd::prelude::*;

use super::archive::{LinkKind, Member};
use super::decision::{Disposition, EntryKind, PacnewReason};
use crate::error::Error;

verus! {

/// The suffix an entry diverted by [`Disposition::ExtractAsPacnew`] is written under.
pub const PACNEW_SUFFIX: &'static str = ".pacnew";

/// What happened to a member.
#[derive(Debug)]
pub enum Applied {
    /// Written to its intended path.
    Written,
    /// Written alongside the existing file, as `<path>.pacnew`.
    WrittenAsPacnew {
        /// Why it was diverted.
        reason: PacnewReason,
        /// Whether this extraction created the `.pacnew`, as opposed to replacing one that was
        /// already there. A `.pacnew` the user is already merging from must not be deleted.
        is_new: bool,
    },
    /// Nothing was done.
    Skipped,
}

/// Whether to apply the ownership recorded in the archive.
///
/// Setting ownership requires privilege. An unprivileged extraction must be able to skip it
/// instead of failing.
#[derive(Clone, Copy, Debug, Eq, PartialEq, Structural)]
pub enum Ownership {
    /// Apply the archive's uid and gid.
    FromArchive,
    /// Leave ownership to the creating process.
    Inherit,
}

/// How a member is put in its place. Whatever is there is removed first, but for a directory.
#[derive(Clone, Debug, Eq, PartialEq)]
pub enum Write {
    /// A symbolic link with this target.
    Symlink(String),
    /// A hard link to this path inside the root. It has no metadata of its own.
    HardLink(String),
    /// A directory. One that is there already is left alone.
    Directory,
    /// A regular file.
    File,
}

/// What carrying out a disposition takes.
#[derive(Debug)]
pub enum Task {
    /// Nothing.
    Nothing,
    /// A write under the member's own name.
    Write(Write),
    /// A write under the member's name and [`PACNEW_SUFFIX`].
    WritePacnew(Write, PacnewReason),
}

/// The write that puts a member in its place.
pub open spec fn write_of(member: Member) -> Write {
    match member.link {
        Some(link) => match link.kind {
            LinkKind::Symbolic => Write::Symlink(link.target),
            LinkKind::Hard => Write::HardLink(link.target),
        },
        None => match member.entry {
            EntryKind::Directory => Write::Directory,
            EntryKind::Other => Write::File,
        },
    }
}

/// Whether two writes are the same.
pub open spec fn same_write(a: Write, b: Write) -> bool {
    match (a, b) {
        (Write::Symlink(s), Write::Symlink(t)) => s@ == t@,
        (Write::HardLink(s), Write::HardLink(t)) => s@ == t@,
        (Write::Directory, Write::Directory) => true,
        (Write::File, Write::File) => true,
        _ => false,
    }
}

/// The write that puts a member in its place.
fn writing(member: &Member) -> (r: Write)
    ensures
        same_write(r, write_of(*member)),
{
    match &member.link {
        Some(link) => match link.kind {
            LinkKind::Symbolic => Write::Symlink(link.target.clone()),
            LinkKind::Hard => Write::HardLink(link.target.clone()),
        },
        None => match member.entry {
            EntryKind::Directory => Write::Directory,
            EntryKind::Other => Write::File,
        },
    }
}

/// What carrying out `disposition` for `member` takes. A refusal is an error.
pub fn task(member: &Member, disposition: Disposition) -> (r: Result<Task, Error>)
    ensures
        match disposition {
            Disposition::Skip(_) => r matches Ok(Task::Nothing),
            Disposition::Refuse(reason) => r matches Err(
                Error::ExtractionRefused { path, reason: why },
            ) && path@ == member.path@ && why == reason,
            Disposition::Extract => r matches Ok(Task::Write(write)) && same_write(
                write,
                write_of(*member),
            ),
            Disposition::ExtractAsPacnew(reason) => r matches Ok(Task::WritePacnew(write, why))
                && same_write(write, write_of(*member)) && why == reason,
        },
{
    match disposition {
        Disposition::Skip(_) => Ok(Task::Nothing),
        Disposition::Refuse(reason) => Err(
            Error::ExtractionRefused { path: member.path.clone(), reason },
        ),
        Disposition::Extract => Ok(Task::Write(writing(member))),
        Disposition::ExtractAsPacnew(reason) => Ok(Task::WritePacnew(writing(member), reason)),
    }
}

/// A path or a name, diverted.
pub open spec fn diverted(path: Seq<char>) -> Seq<char> {
    path + PACNEW_SUFFIX@
}

/// A path or a name, diverted.
pub fn pacnew_path(path: &str) -> (r: String)
    ensures
        r@ == diverted(path@),
{
    let mut out = path.to_owned();
    out.push_str(PACNEW_SUFFIX);
    out
}

/// The bits of a recorded mode that are applied.
pub fn permissions(member: &Member) -> (r: u32)
    ensures
        r == member.mode & 0o7777,
        r <= 0o7777,
{
    let mode = member.mode;
    assert(mode & 0o7777 <= 0o7777) by (bit_vector);
    mode & 0o7777
}

/// A recorded id as the kernel takes it. One that does not fit is the superuser's.
pub open spec fn narrowed(id: u64) -> u32 {
    if id <= u32::MAX {
        id as u32
    } else {
        0
    }
}

/// The archive's uid and gid, narrowed to what the kernel accepts. `None` leaves them alone.
pub fn ids(member: &Member, ownership: Ownership) -> (r: Option<(u32, u32)>)
    ensures
        r == match ownership {
            Ownership::Inherit => None,
            Ownership::FromArchive => Some((narrowed(member.uid), narrowed(member.gid))),
        },
{
    match ownership {
        Ownership::Inherit => None,
        Ownership::FromArchive => {
            let uid = if member.uid <= u32::MAX as u64 {
                member.uid as u32
            } else {
                0u32
            };
            let gid = if member.gid <= u32::MAX as u64 {
                member.gid as u32
            } else {
                0u32
            };
            Some((uid, gid))
        },
    }
}

/// The seconds that a member's access and modification times are set to.
pub fn timestamp(member: &Member) -> (r: i64)
    ensures
        r == if member.mtime <= i64::MAX {
            member.mtime as i64
        } else {
            0i64
        },
{
    if member.mtime <= i64::MAX as u64 {
        member.mtime as i64
    } else {
        0
    }
}

} // verus!
