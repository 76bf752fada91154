//! Whether a file's contents are what they were, and whether two files hold the same bytes.
//!
//! # Treat a failure as unknown, never as unchanged
//!
//! A file that is missing or unreadable has no hash. A caller must not map that to a hash that
//! happens to be convenient: an unknown hash keeps the user's file.

use vstd::prelude::*;
use vstd::slice::slice_subrange;

use crate::bytes;
use crate::error::{Error, IoAction, Limit};
use crate::extract::archive::{is_limit_error, limit_error};

verus! {

/// Largest file that will be hashed for a backup comparison.
pub const MAX_BACKUP_BYTES: u64 = 67_108_864;

/// How much of each file is held in memory at a time while two are compared.
pub const COMPARE_BLOCK_BYTES: usize = 65_536;

/// The MD5 of bytes, in hexadecimal.
pub uninterp spec fn md5_text(bytes: Seq<u8>) -> Seq<char>;

/// `alpm_types::Md5Checksum::calculate_from` hashes bytes, and its `Display` writes the hash. The
/// result is a function of the bytes; which text it is, is left unsaid.
#[verifier::external_body]
pub(crate) fn md5_of(bytes: &[u8]) -> (r: String)
    ensures
        r@ == md5_text(bytes@),
{
    alpm_types::Md5Checksum::calculate_from(bytes).to_string()
}

/// What opening a file came to, without following a symlink.
#[derive(Clone, Debug)]
pub enum Opened {
    /// It is not there.
    Missing,
    /// The system refused.
    Failed {
        /// What was being done.
        action: IoAction,
        /// The system's reason.
        source: String,
    },
    /// It is no regular file.
    Special,
    /// A regular file, and its size.
    Regular(u64),
}

/// Whether a file that is there may not be read.
pub open spec fn is_refused(opened: Opened, max: u64) -> bool {
    match opened {
        Opened::Missing => false,
        Opened::Failed { .. } => true,
        Opened::Special => true,
        Opened::Regular(size) => size > max,
    }
}

/// Whether an error says why a file may not be read.
pub open spec fn reports_refusal(error: Error, name: Seq<char>, opened: Opened, max: u64) -> bool {
    match opened {
        Opened::Missing => false,
        Opened::Failed { action, source } => error matches Error::Io {
            path,
            action: tried,
            source: why,
        } && path@ == name && tried == action && why == source,
        Opened::Special => error matches Error::UnusableSource { path, reason } && path@ == name
            && reason@ == "not a regular file"@,
        Opened::Regular(_) => is_limit_error(error, name, Limit::BackupSize, max),
    }
}

/// The size of a file that may be read, `None` where it is not there, or why it may not be read.
pub fn readable(name: &str, opened: Opened, max: u64) -> (r: Result<Option<u64>, Error>)
    ensures
        match r {
            Ok(None) => opened is Missing,
            Ok(Some(size)) => opened == Opened::Regular(size) && size <= max,
            Err(error) => is_refused(opened, max) && reports_refusal(error, name@, opened, max),
        },
{
    match opened {
        Opened::Missing => Ok(None),
        Opened::Failed { action, source } => Err(
            Error::Io { path: name.to_owned(), action, source },
        ),
        Opened::Special => Err(
            Error::UnusableSource {
                path: name.to_owned(),
                reason: "not a regular file".to_owned(),
            },
        ),
        Opened::Regular(size) => {
            if size > max {
                return Err(limit_error(name, Limit::BackupSize, max));
            }
            Ok(Some(size))
        },
    }
}

/// The MD5 of a file's contents. They were read up to one byte past `max`, which tells a file that
/// is exactly at the limit from one that grew past it.
pub fn file_md5(name: &str, contents: &[u8], max: u64) -> (r: Result<String, Error>)
    ensures
        match r {
            Ok(hash) => contents@.len() <= max && hash@ == md5_text(contents@),
            Err(error) => contents@.len() > max && is_limit_error(
                error,
                name@,
                Limit::BackupSize,
                max,
            ),
        },
{
    if contents.len() as u64 > max {
        return Err(limit_error(name, Limit::BackupSize, max));
    }
    Ok(md5_of(contents))
}

/// Two files of one size while they are compared, block by block.
#[derive(Clone, Copy, Debug)]
pub struct Comparison {
    compared: u64,
    max: u64,
}

impl Comparison {
    /// How many bytes of each were found to be the same.
    pub closed spec fn compared(self) -> u64 {
        self.compared
    }

    /// The largest size that is compared.
    pub closed spec fn spec_max(self) -> u64 {
        self.max
    }

    /// Nothing compared yet. Files of two sizes need no comparison: `None` says they differ.
    pub fn start(left_size: u64, right_size: u64, max: u64) -> (r: Option<Self>)
        ensures
            match r {
                Some(it) => left_size == right_size && it.compared() == 0 && it.spec_max() == max,
                None => left_size != right_size,
            },
    {
        if left_size != right_size {
            return None;
        }
        Some(Comparison { compared: 0, max })
    }

    /// Takes the next block of each file, which is shorter than the others only at the end of the
    /// file. `Some` is the answer; `None` asks for the next blocks. A file that grows past the
    /// limit while it is compared is an error.
    pub fn block(&mut self, name: &str, left: &[u8], right: &[u8]) -> (r: Result<
        Option<bool>,
        Error,
    >)
        ensures
            final(self).spec_max() == old(self).spec_max(),
            if left@ != right@ {
                r == Ok::<Option<bool>, Error>(Some(false))
            } else if left@.len() == 0 {
                r == Ok::<Option<bool>, Error>(Some(true))
            } else if old(self).compared() + left@.len() > old(self).spec_max() {
                r is Err && is_limit_error(
                    r->Err_0,
                    name@,
                    Limit::BackupSize,
                    old(self).spec_max(),
                )
            } else {
                r == Ok::<Option<bool>, Error>(None) && final(self).compared() == old(
                    self,
                ).compared() + left@.len()
            },
    {
        if !bytes::same(left, right) {
            return Ok(Some(false));
        }
        if left.len() == 0 {
            return Ok(Some(true));
        }
        let more = left.len() as u64;
        if more > self.max || self.compared > self.max - more {
            return Err(limit_error(name, Limit::BackupSize, self.max));
        }
        self.compared = self.compared + more;
        Ok(None)
    }
}

/// The block of `bytes` that starts at `at`.
fn block_at(bytes: &[u8], at: usize) -> (r: &[u8])
    requires
        at <= bytes.len(),
    ensures
        r@ == bytes@.subrange(
            at as int,
            if bytes@.len() - at > COMPARE_BLOCK_BYTES {
                at + COMPARE_BLOCK_BYTES
            } else {
                bytes@.len() as int
            },
        ),
{
    let end = if bytes.len() - at > COMPARE_BLOCK_BYTES {
        at + COMPARE_BLOCK_BYTES
    } else {
        bytes.len()
    };
    slice_subrange(bytes, at, end)
}

/// One of two files that are compared.
#[derive(Debug)]
pub struct Side {
    /// Its name.
    pub name: String,
    /// What opening it came to.
    pub opened: Opened,
    /// Its contents, where it is a regular file.
    pub contents: Vec<u8>,
}

/// How many bytes two files start with in common, from `i` on.
pub open spec fn agreement(left: Seq<u8>, right: Seq<u8>, i: int) -> int
    decreases left.len() - i,
{
    if 0 <= i < left.len() && i < right.len() && left[i] == right[i] {
        agreement(left, right, i + 1)
    } else {
        i
    }
}

/// How many bytes of two files that differ are compared before the block in which they do.
pub open spec fn agreed_blocks(left: Seq<u8>, right: Seq<u8>) -> int {
    agreement(left, right, 0) - agreement(left, right, 0) % COMPARE_BLOCK_BYTES as int
}

/// Files agree for as long as they hold the same bytes, and no longer.
proof fn lemma_agreement(left: Seq<u8>, right: Seq<u8>, i: int, n: int)
    requires
        0 <= i <= n <= left.len(),
        n <= right.len(),
        forall|k: int| i <= k < n ==> left[k] == right[k],
    ensures
        agreement(left, right, i) == agreement(left, right, n),
        agreement(left, right, n) >= n,
        agreement(left, right, n) <= left.len(),
        agreement(left, right, n) <= right.len(),
        forall|k: int| i <= k < agreement(left, right, n) ==> left[k] == right[k],
        agreement(left, right, n) < left.len() && agreement(left, right, n) < right.len()
            ==> left[agreement(left, right, n)] != right[agreement(left, right, n)],
    decreases left.len() - i, n - i,
{
    if i < n {
        lemma_agreement(left, right, i + 1, n);
    } else if n < left.len() && n < right.len() && left[n] == right[n] {
        lemma_agreement(left, right, n + 1, n + 1);
    }
}

/// Whether two files hold exactly the same bytes. `None` where either is not there: a pair needs
/// two files.
///
/// A pair that cannot be read is never "the same": this answers the question that deletes a file
/// without asking the user. The bytes are compared, not digests of them.
///
/// The sizes are those that opening the files told. A file that changes while it is read may hold
/// more or less: what was read decides. One that grows past the limit is an error, unless a
/// difference is met before it.
pub fn same_contents(left: Side, right: Side, max: u64) -> (r: Result<Option<bool>, Error>)
    ensures
        if is_refused(left.opened, max) {
            r is Err && reports_refusal(r->Err_0, left.name@, left.opened, max)
        } else if left.opened is Missing {
            r == Ok::<Option<bool>, Error>(None)
        } else if is_refused(right.opened, max) {
            r is Err && reports_refusal(r->Err_0, right.name@, right.opened, max)
        } else if right.opened is Missing {
            r == Ok::<Option<bool>, Error>(None)
        } else if left.opened->Regular_0 != right.opened->Regular_0 {
            r == Ok::<Option<bool>, Error>(Some(false))
        } else if outgrown(left.contents@, right.contents@, max as int) {
            r is Err && is_limit_error(r->Err_0, left.name@, Limit::BackupSize, max)
        } else {
            r == Ok::<Option<bool>, Error>(Some(left.contents@ == right.contents@))
        },
{
    let left_size = match readable(left.name.as_str(), left.opened, max) {
        Err(error) => {
            return Err(error);
        },
        Ok(None) => {
            return Ok(None);
        },
        Ok(Some(size)) => size,
    };
    let right_size = match readable(right.name.as_str(), right.opened, max) {
        Err(error) => {
            return Err(error);
        },
        Ok(None) => {
            return Ok(None);
        },
        Ok(Some(size)) => size,
    };
    match Comparison::start(left_size, right_size, max) {
        None => Ok(Some(false)),
        Some(comparison) => compare_blocks(
            comparison,
            left.name.as_str(),
            left.contents.as_slice(),
            right.contents.as_slice(),
        ),
    }
}

/// Whether the limit is passed before two files are told apart or found to be the same.
pub open spec fn outgrown(left: Seq<u8>, right: Seq<u8>, max: int) -> bool {
    if left == right {
        left.len() > max
    } else {
        agreed_blocks(left, right) > max
    }
}

/// Files that hold what they were said to hold do not outgrow the limit they are under.
pub proof fn a_file_under_the_limit_is_compared(left: Seq<u8>, right: Seq<u8>, max: int)
    requires
        left.len() <= max,
    ensures
        !outgrown(left, right, max),
{
    lemma_agreement(left, right, 0, 0);
}

/// Compares two files of one size, block by block.
fn compare_blocks(start: Comparison, left_name: &str, left: &[u8], right: &[u8]) -> (r: Result<
    Option<bool>,
    Error,
>)
    requires
        start.compared() == 0,
    ensures
        if outgrown(left@, right@, start.spec_max() as int) {
            r is Err && is_limit_error(
                r->Err_0,
                left_name@,
                Limit::BackupSize,
                start.spec_max(),
            )
        } else {
            r == Ok::<Option<bool>, Error>(Some(left@ == right@))
        },
{
    let mut comparison = start;
    let ghost max = start.spec_max();
    let mut at: usize = 0;
    loop
        invariant
            at <= left.len(),
            at <= right.len(),
            at <= max,
            max == start.spec_max(),
            at as int % COMPARE_BLOCK_BYTES as int == 0 || (at == left.len() && at == right.len()),
            comparison.compared() == at,
            comparison.spec_max() == max,
            forall|k: int| 0 <= k < at ==> left@[k] == right@[k],
        decreases left.len() - at,
    {
        let ours = block_at(left, at);
        let theirs = block_at(right, at);
        let ghost common = agreement(left@, right@, 0);
        proof {
            lemma_agreement(left@, right@, 0, at as int);
            if left@ == right@ {
                assert(ours@ == theirs@);
            }
        }
        let ghost end = at + ours@.len();
        match comparison.block(left_name, ours, theirs) {
            Err(error) => {
                proof {
                    assert forall|k: int| 0 <= k < end implies left@[k] == right@[k] by {
                        if k >= at {
                            assert(left@[k] == ours@[k - at]);
                            assert(right@[k] == theirs@[k - at]);
                        }
                    }
                    lemma_agreement(left@, right@, 0, end);
                    if left@ != right@ {
                        if ours@.len() < COMPARE_BLOCK_BYTES {
                            assert(left@ =~= right@);
                        }
                        assert(common >= at + COMPARE_BLOCK_BYTES);
                    }
                }
                return Err(error);
            },
            Ok(Some(same)) => {
                proof {
                    if same {
                        assert(left@ =~= right@);
                    } else {
                        assert(left@ != right@);
                        assert(common < at + COMPARE_BLOCK_BYTES) by {
                            if common >= at + COMPARE_BLOCK_BYTES {
                                assert(ours@ =~= theirs@);
                            }
                        }
                        if at == left.len() && at == right.len() {
                            assert(ours@ =~= theirs@);
                        }
                        assert(at as int % COMPARE_BLOCK_BYTES as int == 0);
                        assert(agreed_blocks(left@, right@) == at);
                    }
                }
                return Ok(Some(same));
            },
            Ok(None) => {
                proof {
                    assert forall|k: int| 0 <= k < end implies left@[k] == right@[k] by {
                        if k >= at {
                            assert(left@[k] == ours@[k - at]);
                            assert(right@[k] == theirs@[k - at]);
                        }
                    }
                }
            },
        }
        at = at + ours.len();
    }
}

} // verus!
