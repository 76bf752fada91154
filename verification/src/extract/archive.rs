//! Reading a `.pkg.tar.*` archive, member by member: what each member is, and the bounds on what
//! one package may cost.
//!
//! 1. A package's compression is told from its magic bytes. Its name is no guarantee.
//! 2. Decompression is bounded. [`Walk`] counts what came out of the decoder and remembers that a
//!    bound was exceeded, which is what tells that apart from a corrupt archive.
//!
//! Nothing here reads or writes: whoever holds the file asks [`Walk`] before each step.

use vstd::prelude::*;
use vstd::slice::slice_subrange;

use super::decision::EntryKind;
use crate::error::{Error, IoAction, Limit};
use crate::text;

verus! {

/// Bounds on what a single package may cost to read.
///
/// Generous rather than tight: a hostile archive costs a bounded amount of work, and a legitimate
/// one is not squeezed.
#[derive(Clone, Copy, Debug, Eq, PartialEq, Structural)]
pub struct PackageLimits {
    /// Largest package file that will be opened.
    pub compressed_bytes: u64,
    /// Largest total inflated size that will be read out of one package.
    pub inflated_bytes: u64,
    /// Largest number of members a package may contain.
    pub max_members: usize,
}

impl PackageLimits {
    /// The bounds that apply unless others are given.
    pub open spec fn spec_default() -> Self {
        PackageLimits {
            compressed_bytes: 8_589_934_592,
            inflated_bytes: 34_359_738_368,
            max_members: 2_000_000,
        }
    }
}

impl Default for PackageLimits {
    fn default() -> (r: Self)
        ensures
            r == Self::spec_default(),
    {
        PackageLimits {
            compressed_bytes: 8_589_934_592,
            inflated_bytes: 34_359_738_368,
            max_members: 2_000_000,
        }
    }
}

/// Which half of a package a member belongs to.
#[derive(Clone, Copy, Debug, Eq, PartialEq, Structural)]
pub enum MemberKind {
    /// A metadata member: a name beginning with `.`, such as `.PKGINFO` or `.MTREE`. It belongs in
    /// the database entry rather than in the installation root.
    Metadata,
    /// A payload member, destined for the installation root.
    Payload,
}

/// Which kind of link a member is.
///
/// Conflating them would create a symlink where the archive asked for a hard link.
#[derive(Clone, Copy, Debug, Eq, PartialEq, Structural)]
pub enum LinkKind {
    /// A symbolic link. The target is stored verbatim and may point anywhere.
    Symbolic,
    /// A hard link to another member of the same package, named relative to the root.
    Hard,
}

/// A link member's kind and target.
#[derive(Clone, Debug, Eq, PartialEq)]
pub struct Link {
    /// Symbolic or hard.
    pub kind: LinkKind,
    /// What it points at.
    pub target: String,
}

/// One member of a package archive, without its contents.
#[derive(Clone, Debug)]
pub struct Member {
    /// The member's path as the archive spells it.
    pub path: String,
    /// Whether it is metadata or payload.
    pub kind: MemberKind,
    /// Whether the archive says it is a directory.
    pub entry: EntryKind,
    /// Whether the archive says it is a regular file, and not a device, a pipe or the like.
    pub is_regular: bool,
    /// The link this member is, if it is one.
    pub link: Option<Link>,
    /// The permission bits.
    pub mode: u32,
    /// The owning user id recorded in the archive.
    pub uid: u64,
    /// The owning group id recorded in the archive.
    pub gid: u64,
    /// The modification time recorded in the archive.
    pub mtime: u64,
    /// The member's size in bytes.
    pub size: u64,
}

impl Member {
    /// Whether this member is a regular file: neither a directory nor a link nor anything else.
    pub open spec fn is_file(self) -> bool {
        self.is_regular && self.entry == EntryKind::Other && self.link is None
    }

    /// Whether this member is a link of a kind.
    pub open spec fn links(self, kind: LinkKind) -> bool {
        self.link matches Some(link) && link.kind == kind
    }

    /// Whether this member is a symbolic link.
    pub fn is_symlink(&self) -> (r: bool)
        ensures
            r == self.links(LinkKind::Symbolic),
    {
        match &self.link {
            Some(link) => link.kind == LinkKind::Symbolic,
            None => false,
        }
    }

    /// Whether this member is a hard link.
    pub fn is_hard_link(&self) -> (r: bool)
        ensures
            r == self.links(LinkKind::Hard),
    {
        match &self.link {
            Some(link) => link.kind == LinkKind::Hard,
            None => false,
        }
    }
}

/// What a tar header says of a member.
#[derive(Clone, Debug)]
pub struct Header {
    /// The member's path.
    pub path: String,
    /// Whether its type is that of a regular file.
    pub is_regular: bool,
    /// Whether its type is that of a directory.
    pub is_dir: bool,
    /// Whether its type is that of a symbolic link.
    pub is_symlink: bool,
    /// Whether its type is that of a hard link.
    pub is_hard_link: bool,
    /// The link target, which is there for links of both kinds.
    pub link_name: Option<String>,
    /// The permission bits.
    pub mode: u32,
    /// The owning user id.
    pub uid: u64,
    /// The owning group id.
    pub gid: u64,
    /// The modification time.
    pub mtime: u64,
    /// The size in bytes.
    pub size: u64,
}

/// Whether a path's first component is a name that begins with `.`.
///
/// Checking the first component rather than the whole path is what stops a payload file named
/// `usr/share/foo/.keep` being mistaken for metadata.
pub open spec fn is_metadata(path: Seq<char>) -> bool {
    let first = path.take(text::first(path, '/'));
    first.len() > 0 && first[0] == '.' && first != seq!['.'] && first != seq!['.', '.']
}

/// Whether a path's first component is a name that begins with `.`.
fn names_metadata(path: &[char]) -> (r: bool)
    ensures
        r == is_metadata(path@),
{
    let n = text::find(path, '/');
    let ghost first = path@.take(n as int);
    if n == 0 || path[0] != '.' {
        return false;
    }
    if n == 1 {
        assert(first =~= seq!['.']);
        return false;
    }
    if n == 2 && path[1] == '.' {
        assert(first =~= seq!['.', '.']);
        return false;
    }
    proof {
        assert(first.len() == n);
        if n == 2 {
            assert(first[1] != '.');
        }
    }
    true
}

/// The kind of link that a header describes.
pub open spec fn link_kind(header: Header) -> Option<LinkKind> {
    if header.is_symlink {
        Some(LinkKind::Symbolic)
    } else if header.is_hard_link {
        Some(LinkKind::Hard)
    } else {
        None
    }
}

/// Whether a member is what a header describes.
pub open spec fn is_described(member: Member, header: Header) -> bool {
    &&& member.path == header.path
    &&& member.kind == if is_metadata(header.path@) {
        MemberKind::Metadata
    } else {
        MemberKind::Payload
    }
    &&& member.entry == if header.is_dir {
        EntryKind::Directory
    } else {
        EntryKind::Other
    }
    &&& member.is_regular == header.is_regular
    &&& member.link == match (link_kind(header), header.link_name) {
        (Some(kind), Some(target)) => Some(Link { kind, target }),
        _ => None,
    }
    &&& member.mode == header.mode && member.uid == header.uid && member.gid == header.gid
    &&& member.mtime == header.mtime && member.size == header.size
}

/// Builds a [`Member`] from a tar header.
pub fn describe(header: Header) -> (r: Member)
    ensures
        is_described(r, header),
{
    let all = text::chars(header.path.as_str());
    let kind = if names_metadata(all.as_slice()) {
        MemberKind::Metadata
    } else {
        MemberKind::Payload
    };
    let entry = if header.is_dir {
        EntryKind::Directory
    } else {
        EntryKind::Other
    };
    let link_kind = if header.is_symlink {
        Some(LinkKind::Symbolic)
    } else if header.is_hard_link {
        Some(LinkKind::Hard)
    } else {
        None
    };
    let link = match (link_kind, header.link_name) {
        (Some(kind), Some(target)) => Some(Link { kind, target }),
        _ => None,
    };
    Member {
        path: header.path,
        kind,
        entry,
        is_regular: header.is_regular,
        link,
        mode: header.mode,
        uid: header.uid,
        gid: header.gid,
        mtime: header.mtime,
        size: header.size,
    }
}

// ---------------------------------------------------------------------------------------------
// Compression

/// How a package is compressed.
#[derive(Clone, Copy, Debug, Eq, PartialEq, Structural)]
pub enum Compression {
    /// gzip.
    Gzip,
    /// Zstandard.
    Zstd,
    /// xz.
    Xz,
    /// bzip2.
    Bzip2,
    /// Not at all: a bare tar archive.
    Uncompressed,
}

/// How many bytes of a file tell its compression: up to the end of the `ustar` tag that marks an
/// uncompressed tar.
pub const SNIFF_BYTES: usize = 262;

/// Whether `bytes` starts with `magic`.
pub open spec fn has_magic(bytes: Seq<u8>, magic: Seq<u8>) -> bool {
    bytes.len() >= magic.len() && bytes.take(magic.len() as int) == magic
}

/// Where the tag of a tar archive starts.
pub const TAR_TAG_AT: usize = 257;

/// The compression that magic bytes tell.
pub open spec fn compression_of(header: Seq<u8>) -> Option<Compression> {
    if has_magic(header, seq![0x1fu8, 0x8bu8]) {
        Some(Compression::Gzip)
    } else if has_magic(header, seq![0x28u8, 0xb5u8, 0x2fu8, 0xfdu8]) {
        Some(Compression::Zstd)
    } else if has_magic(header, seq![0xfdu8, 0x37u8, 0x7au8, 0x58u8, 0x5au8, 0x00u8]) {
        Some(Compression::Xz)
    } else if has_magic(header, seq![0x42u8, 0x5au8, 0x68u8]) {
        Some(Compression::Bzip2)
    } else if header.len() >= TAR_TAG_AT && has_magic(
        header.skip(TAR_TAG_AT as int),
        seq![0x75u8, 0x73u8, 0x74u8, 0x61u8, 0x72u8],
    ) {
        Some(Compression::Uncompressed)
    } else {
        None
    }
}

/// Whether `bytes` starts with `magic`.
fn begins(bytes: &[u8], magic: &[u8]) -> (r: bool)
    ensures
        r == has_magic(bytes@, magic@),
{
    if bytes.len() < magic.len() {
        return false;
    }
    let mut i: usize = 0;
    while i < magic.len()
        invariant
            i <= magic.len() <= bytes.len(),
            forall|k: int| 0 <= k < i ==> bytes@[k] == magic@[k],
        decreases magic.len() - i,
    {
        if bytes[i] != magic[i] {
            assert(bytes@.take(magic@.len() as int)[i as int] != magic@[i as int]);
            return false;
        }
        i += 1;
    }
    assert(bytes@.take(magic@.len() as int) =~= magic@);
    true
}

/// Identifies a compression format from its magic bytes.
pub fn sniff(header: &[u8]) -> (r: Option<Compression>)
    ensures
        r == compression_of(header@),
{
    let gzip: [u8; 2] = [0x1f, 0x8b];
    let zstd: [u8; 4] = [0x28, 0xb5, 0x2f, 0xfd];
    let xz: [u8; 6] = [0xfd, 0x37, 0x7a, 0x58, 0x5a, 0x00];
    let bzip2: [u8; 3] = [0x42, 0x5a, 0x68];
    let ustar: [u8; 5] = [0x75, 0x73, 0x74, 0x61, 0x72];
    proof {
        assert(gzip@ =~= seq![0x1fu8, 0x8bu8]);
        assert(zstd@ =~= seq![0x28u8, 0xb5u8, 0x2fu8, 0xfdu8]);
        assert(xz@ =~= seq![0xfdu8, 0x37u8, 0x7au8, 0x58u8, 0x5au8, 0x00u8]);
        assert(bzip2@ =~= seq![0x42u8, 0x5au8, 0x68u8]);
        assert(ustar@ =~= seq![0x75u8, 0x73u8, 0x74u8, 0x61u8, 0x72u8]);
    }
    if begins(header, gzip.as_slice()) {
        return Some(Compression::Gzip);
    }
    if begins(header, zstd.as_slice()) {
        return Some(Compression::Zstd);
    }
    if begins(header, xz.as_slice()) {
        return Some(Compression::Xz);
    }
    if begins(header, bzip2.as_slice()) {
        return Some(Compression::Bzip2);
    }
    if header.len() >= TAR_TAG_AT {
        let tag = slice_subrange(header, TAR_TAG_AT, header.len());
        assert(tag@ =~= header@.skip(TAR_TAG_AT as int));
        if begins(tag, ustar.as_slice()) {
            return Some(Compression::Uncompressed);
        }
    }
    None
}

/// [`sniff`], for the package at `path`: an unknown format is an error.
pub fn sniff_file(header: &[u8], path: &str) -> (r: Result<Compression, Error>)
    ensures
        match r {
            Ok(compression) => compression_of(header@) == Some(compression),
            Err(error) => compression_of(header@) is None && (error matches Error::UnsupportedCompression {
                path: at,
            } && at@ == path@),
        },
{
    match sniff(header) {
        Some(compression) => Ok(compression),
        None => Err(Error::UnsupportedCompression { path: path.to_owned() }),
    }
}

// ---------------------------------------------------------------------------------------------
// Bounds

/// The error for a bound that was exceeded.
pub open spec fn is_limit_error(error: Error, path: Seq<char>, limit: Limit, max: u64) -> bool {
    error matches Error::PackageLimitExceeded { path: at, limit: which, max: bound } && at@ == path
        && which == limit && bound == max
}

/// The error for a bound that was exceeded.
pub(crate) fn limit_error(path: &str, limit: Limit, max: u64) -> (r: Error)
    ensures
        is_limit_error(r, path@, limit, max),
{
    Error::PackageLimitExceeded { path: path.to_owned(), limit, max }
}

/// Whether [`Walk`] should go on to the next member or stop.
#[derive(Clone, Copy, Debug, Eq, PartialEq, Structural)]
pub enum Flow {
    /// Go on to the next member.
    Continue,
    /// Stop, without an error.
    Stop,
}

/// The bounds of one package, and how much of them its reading has used up.
#[derive(Clone, Copy, Debug)]
pub struct Walk {
    limits: PackageLimits,
    seen: usize,
    read_so_far: u64,
    tripped: bool,
}

impl Walk {
    /// The bounds.
    pub closed spec fn spec_limits(self) -> PackageLimits {
        self.limits
    }

    /// How many members were met.
    pub closed spec fn seen(self) -> usize {
        self.seen
    }

    /// How many bytes came out of the decoder.
    pub closed spec fn read_so_far(self) -> u64 {
        self.read_so_far
    }

    /// Whether more came out than the bound allows.
    pub closed spec fn tripped(self) -> bool {
        self.tripped
    }

    /// Once the bound on the inflated size is exceeded, that stays known.
    #[verifier::type_invariant]
    spec fn inv(self) -> bool {
        self.tripped == (self.read_so_far > self.limits.inflated_bytes)
    }

    /// Starts to read the package at `path`, given whether it is a regular file and how large it
    /// is.
    pub fn open(path: &str, is_file: bool, len: u64, limits: PackageLimits) -> (r: Result<
        Self,
        Error,
    >)
        ensures
            match r {
                Ok(walk) => {
                    &&& is_file && len <= limits.compressed_bytes
                    &&& walk.spec_limits() == limits
                    &&& walk.seen() == 0 && walk.read_so_far() == 0 && !walk.tripped()
                },
                Err(error) => if !is_file {
                    error matches Error::UnusableSource { path: at, reason } && at@ == path@
                        && reason@ == "not a regular file"@
                } else {
                    len > limits.compressed_bytes && is_limit_error(
                        error,
                        path@,
                        Limit::CompressedSize,
                        limits.compressed_bytes,
                    )
                },
            },
    {
        if !is_file {
            return Err(
                Error::UnusableSource {
                    path: path.to_owned(),
                    reason: "not a regular file".to_owned(),
                },
            );
        }
        if len > limits.compressed_bytes {
            return Err(limit_error(path, Limit::CompressedSize, limits.compressed_bytes));
        }
        Ok(Walk { limits, seen: 0, read_so_far: 0, tripped: false })
    }

    /// Meets one more member.
    pub fn next_member(&mut self, path: &str) -> (r: Result<(), Error>)
        ensures
            final(self).spec_limits() == old(self).spec_limits(),
            final(self).read_so_far() == old(self).read_so_far(),
            final(self).tripped() == old(self).tripped(),
            final(self).seen() == if old(self).seen() == usize::MAX {
                usize::MAX
            } else {
                (old(self).seen() + 1) as usize
            },
            match r {
                Ok(()) => final(self).seen() <= old(self).spec_limits().max_members,
                Err(error) => final(self).seen() > old(self).spec_limits().max_members
                    && is_limit_error(
                    error,
                    path@,
                    Limit::MemberCount,
                    old(self).spec_limits().max_members as u64,
                ),
            },
    {
        proof {
            use_type_invariant(&*self);
        }
        let seen = if self.seen == usize::MAX {
            usize::MAX
        } else {
            self.seen + 1
        };
        self.seen = seen;
        if seen > self.limits.max_members {
            return Err(limit_error(path, Limit::MemberCount, self.limits.max_members as u64));
        }
        Ok(())
    }

    /// Counts what came out of the decoder. `false` says that it is more than the bound allows,
    /// and that nothing of it may be handed on.
    pub fn inflated(&mut self, count: u64) -> (r: bool)
        ensures
            final(self).spec_limits() == old(self).spec_limits(),
            final(self).seen() == old(self).seen(),
            final(self).read_so_far() == if old(self).read_so_far() + count > u64::MAX {
                u64::MAX
            } else {
                (old(self).read_so_far() + count) as u64
            },
            r == (final(self).read_so_far() <= old(self).spec_limits().inflated_bytes),
            final(self).tripped() == !r,
    {
        let limits = self.limits;
        let seen = self.seen;
        let read_so_far = if u64::MAX - self.read_so_far < count {
            u64::MAX
        } else {
            self.read_so_far + count
        };
        let tripped = read_so_far > limits.inflated_bytes;
        *self = Walk { limits, seen, read_so_far, tripped };
        !tripped
    }

    /// What a failure to read on means: that the bound was exceeded, or what the system or the
    /// archive says. It is blamed on the bound exactly where more came out of the decoder than the
    /// bound allows.
    pub fn failure(&self, path: &str, source: String) -> (r: Error)
        ensures
            if self.read_so_far() > self.spec_limits().inflated_bytes {
                is_limit_error(
                    r,
                    path@,
                    Limit::InflatedSize,
                    self.spec_limits().inflated_bytes,
                )
            } else {
                r matches Error::Io { path: at, action, source: why } && at@ == path@ && action
                    == IoAction::Read && why == source
            },
    {
        proof {
            use_type_invariant(self);
        }
        if self.tripped {
            return limit_error(path, Limit::InflatedSize, self.limits.inflated_bytes);
        }
        Error::Io { path: path.to_owned(), action: IoAction::Read, source }
    }
}

// ---------------------------------------------------------------------------------------------
// The walk

/// What comes out of an archive while it is read.
#[derive(Debug)]
pub enum Arrival {
    /// Bytes came out of the decoder.
    Inflated(u64),
    /// A member's header was read.
    Member(Header),
    /// Reading failed, with the reason given.
    Failed(String),
}

/// Why a walk ended early.
pub enum WalkEnd {
    /// A bound was exceeded.
    Limit(Limit, u64),
    /// Reading failed.
    Failed(Seq<char>),
}

/// Whether an error says why a walk ended.
pub open spec fn reports_end(error: Error, path: Seq<char>, end: WalkEnd) -> bool {
    match end {
        WalkEnd::Limit(limit, max) => is_limit_error(error, path, limit, max),
        WalkEnd::Failed(reason) => error matches Error::Io { path: at, action, source } && at@
            == path && action == IoAction::Read && source@ == reason,
    }
}

/// One more, as far as the type goes.
pub open spec fn counted(n: usize) -> usize {
    if n == usize::MAX {
        n
    } else {
        (n + 1) as usize
    }
}

/// Some more, as far as the type goes.
pub open spec fn grown(n: u64, more: u64) -> u64 {
    if n + more > u64::MAX {
        u64::MAX
    } else {
        (n + more) as u64
    }
}

/// The headers that a walk hands on from the arrival `i` on, and why it ends early, given how many
/// members it has met and how many bytes came out of the decoder.
pub open spec fn handed_on(
    arrivals: Seq<Arrival>,
    limits: PackageLimits,
    i: int,
    seen: usize,
    read: u64,
) -> (Seq<Header>, Option<WalkEnd>)
    decreases arrivals.len() - i,
{
    if i >= arrivals.len() {
        (Seq::empty(), None)
    } else {
        match arrivals[i] {
            Arrival::Inflated(count) => if grown(read, count) > limits.inflated_bytes {
                (
                    Seq::empty(),
                    Some(WalkEnd::Limit(Limit::InflatedSize, limits.inflated_bytes)),
                )
            } else {
                handed_on(arrivals, limits, i + 1, seen, grown(read, count))
            },
            Arrival::Member(header) => if counted(seen) > limits.max_members {
                (
                    Seq::empty(),
                    Some(WalkEnd::Limit(Limit::MemberCount, limits.max_members as u64)),
                )
            } else {
                let (rest, end) = handed_on(arrivals, limits, i + 1, counted(seen), read);
                (seq![header] + rest, end)
            },
            Arrival::Failed(reason) => (Seq::empty(), Some(WalkEnd::Failed(reason@))),
        }
    }
}

/// Walks the members of the package at `path`, given what comes out of it while it is read. What
/// was met before an early end is handed on all the same.
pub fn walk(
    path: &str,
    is_file: bool,
    len: u64,
    magic: &[u8],
    arrivals: Vec<Arrival>,
    limits: PackageLimits,
) -> (r: (Vec<Member>, Result<(), Error>))
    ensures
        if !is_file {
            r.0@.len() == 0 && (r.1 matches Err(Error::UnusableSource { path: at, reason }) && at@
                == path@ && reason@ == "not a regular file"@)
        } else if len > limits.compressed_bytes {
            r.0@.len() == 0 && r.1 is Err && is_limit_error(
                r.1->Err_0,
                path@,
                Limit::CompressedSize,
                limits.compressed_bytes,
            )
        } else if compression_of(magic@) is None {
            r.0@.len() == 0 && (r.1 matches Err(Error::UnsupportedCompression { path: at }) && at@
                == path@)
        } else {
            let (headers, end) = handed_on(arrivals@, limits, 0, 0, 0);
            &&& r.0@.len() == headers.len()
            &&& forall|i: int| 0 <= i < headers.len() ==> is_described(#[trigger] r.0@[i], headers[i])
            &&& match end {
                None => r.1 is Ok,
                Some(end) => r.1 is Err && reports_end(r.1->Err_0, path@, end),
            }
        },
{
    let mut members: Vec<Member> = Vec::new();
    let mut walk = match Walk::open(path, is_file, len, limits) {
        Ok(walk) => walk,
        Err(error) => {
            return (members, Err(error));
        },
    };
    match sniff_file(magic, path) {
        Ok(_) => {},
        Err(error) => {
            return (members, Err(error));
        },
    }
    let ghost all = arrivals@;
    let ghost whole = handed_on(all, limits, 0, 0, 0);
    let ghost mut i: int = 0;
    let ghost mut met: Seq<Header> = Seq::empty();
    assert(met + whole.0 =~= whole.0);
    for arrival in it: arrivals
        invariant
            it.seq() == all,
            it.index() == i,
            all == arrivals@,
            whole == handed_on(all, limits, 0, 0, 0),
            is_file,
            len <= limits.compressed_bytes,
            compression_of(magic@) is Some,
            walk.spec_limits() == limits,
            walk.read_so_far() <= limits.inflated_bytes,
            whole.0 == met + handed_on(all, limits, i, walk.seen(), walk.read_so_far()).0,
            whole.1 == handed_on(all, limits, i, walk.seen(), walk.read_so_far()).1,
            members@.len() == met.len(),
            forall|k: int| 0 <= k < met.len() ==> is_described(#[trigger] members@[k], met[k]),
    {
        proof {
            assert(arrival == all[i]);
        }
        let ghost rest = handed_on(all, limits, i, walk.seen(), walk.read_so_far());
        match arrival {
            Arrival::Inflated(count) => {
                if !walk.inflated(count) {
                    assert(met + Seq::<Header>::empty() =~= met);
                    return (members, Err(walk.failure(path, String::new())));
                }
            },
            Arrival::Member(header) => {
                match walk.next_member(path) {
                    Ok(()) => {},
                    Err(error) => {
                        assert(met + Seq::<Header>::empty() =~= met);
                        return (members, Err(error));
                    },
                }
                let member = describe(header);
                members.push(member);
                proof {
                    let tail = handed_on(all, limits, i + 1, walk.seen(), walk.read_so_far()).0;
                    assert(met + (seq![header] + tail) =~= met.push(header) + tail);
                    met = met.push(header);
                }
            },
            Arrival::Failed(reason) => {
                assert(met + Seq::<Header>::empty() =~= met);
                return (members, Err(walk.failure(path, reason)));
            },
        }
        proof {
            i = i + 1;
        }
    }
    assert(met + Seq::<Header>::empty() =~= met);
    (members, Ok(()))
}

// ---------------------------------------------------------------------------------------------
// Laws

/// Where a path has a `/`, only what stands before the first one decides whether it is metadata.
pub proof fn metadata_is_told_by_the_first_component(first: Seq<char>, rest: Seq<char>)
    requires
        !first.contains('/'),
    ensures
        is_metadata(first + seq!['/'] + rest) == is_metadata(first),
{
    let whole = first + seq!['/'] + rest;
    text::lemma_split_head(first, '/', rest);
    assert(first.push('/') + rest =~= whole);
    assert forall|j: int| 0 <= j < first.len() implies first[j] != '/' by {
        assert(first.contains(first[j]));
    }
    text::lemma_first_unique(first, '/', first.len() as int);
    assert(whole.take(first.len() as int) =~= first);
    assert(first.take(first.len() as int) =~= first);
}

} // verus!
