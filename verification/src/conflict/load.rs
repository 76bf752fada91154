//! Reading a package archive far enough to check and record it: its member list, its `.INSTALL` and
//! its `.PKGINFO`.
//!
//! The file list must come from the archive: the package is not installed yet, so there is no file
//! list to read, and a repository describes a build that may not be the one in the cache.

use vstd::prelude::*;
use vstd::string::*;

use super::Target;
use crate::bytes;
use crate::conflict::filelist::FileList;
use crate::error::Error;
use crate::extract::archive::{Member, MemberKind};
use crate::extract::decision::EntryKind;
use crate::paths;
use crate::pkginfo;
use crate::pkginfo::{PackageInfo, PackageInfoView};
use crate::table::TextSet;
use crate::text;

verus! {

broadcast use crate::text::group_lists;

/// Largest `.PKGINFO` that is read. It is a few kilobytes in practice.
pub const MAX_PKGINFO_BYTES: u64 = 4_194_304;

/// One member of an archive, with what was read of it.
#[derive(Debug)]
pub struct Read {
    /// The member.
    pub member: Member,
    /// Its contents, where they are wanted and could be read.
    pub contents: Option<Vec<u8>>,
}

/// A package that was read.
#[derive(Debug)]
pub struct LoadedPackage {
    /// Everything file-conflict detection asks about the package.
    pub target: Target,
    /// The parsed `.PKGINFO`.
    pub info: PackageInfo,
    /// Its text, verbatim. Some fields must survive as they are written.
    pub raw: String,
}

/// A member's path as a file list spells it: a directory ends in `/`, whether the archive says so
/// or not.
pub open spec fn spelled(member: Member) -> Seq<char> {
    if member.entry == EntryKind::Directory && !(member.path@.len() > 0 && member.path@.last()
        == '/') {
        member.path@.push('/')
    } else {
        member.path@
    }
}

/// The paths that the first members of an archive put into the root, in order.
pub open spec fn shipped(reads: Seq<Read>) -> Seq<Seq<char>>
    decreases reads.len(),
{
    if reads.len() == 0 {
        Seq::empty()
    } else {
        let before = shipped(reads.drop_last());
        if reads.last().member.kind == MemberKind::Payload {
            before.push(spelled(reads.last().member))
        } else {
            before
        }
    }
}

/// Whether a member is the metadata of a name.
pub open spec fn is_metadata_of(member: Member, name: Seq<char>) -> bool {
    member.kind == MemberKind::Metadata && paths::key_of(member.path@) == paths::key_of(name)
}

/// The text of the last readable `.PKGINFO`. One that is no text leaves nothing to parse.
pub open spec fn pkginfo_in(reads: Seq<Read>) -> Option<Seq<char>>
    decreases reads.len(),
{
    if reads.len() == 0 {
        None
    } else {
        let last = reads.last();
        let before = pkginfo_in(reads.drop_last());
        match last.contents {
            Some(bytes) => if is_metadata_of(last.member, ".PKGINFO"@) && bytes::text_in(bytes@) is Some {
                bytes::text_in(bytes@)
            } else {
                before
            },
            None => before,
        }
    }
}

/// The last readable `.INSTALL`.
pub open spec fn scriptlet_in(reads: Seq<Read>) -> Option<Seq<u8>>
    decreases reads.len(),
{
    if reads.len() == 0 {
        None
    } else {
        let last = reads.last();
        match last.contents {
            Some(bytes) => if is_metadata_of(last.member, ".INSTALL"@) {
                Some(bytes@)
            } else {
                scriptlet_in(reads.drop_last())
            },
            None => scriptlet_in(reads.drop_last()),
        }
    }
}

/// Whether a `.PKGINFO` declares a backup file. Its paths are taken from the text, because they
/// are compared with the paths the archive spells.
pub open spec fn declares_backup(raw: Seq<char>, path: Seq<char>) -> bool {
    exists|i: int| 0 <= i < text::lines(raw).len() && backup_in(#[trigger] text::lines(raw)[i]) == Some(path)
}

/// The backup file that a line declares.
pub open spec fn backup_in(line: Seq<char>) -> Option<Seq<char>> {
    match text::strip_prefix(line, "backup = "@) {
        Some(value) => Some(text::trim(value)),
        None => None,
    }
}

/// The view of a scriptlet that may be missing.
pub open spec fn maybe_bytes(bytes: Option<Vec<u8>>) -> Option<Seq<u8>> {
    match bytes {
        Some(bytes) => Some(bytes@),
        None => None,
    }
}

/// Whether a loaded package is what an archive's paths, scriptlet and `.PKGINFO` make it.
pub open spec fn is_package(
    loaded: LoadedPackage,
    info: PackageInfoView,
    raw: Seq<char>,
    shipped: Seq<Seq<char>>,
    scriptlet: Option<Seq<u8>>,
) -> bool {
    &&& loaded.info@ == info
    &&& loaded.raw@ == raw
    &&& loaded.target.name@ == info.pkgname
    &&& loaded.target.version@ == info.pkgver
    &&& loaded.target.files.wf()
    &&& loaded.target.files@.to_multiset() == shipped.to_multiset()
    &&& forall|path: Seq<char>| #[trigger]
        loaded.target.backups@.contains(path) <==> declares_backup(raw, path)
    &&& maybe_bytes(loaded.target.install_script) == scriptlet
}

/// The backup files that a `.PKGINFO` declares.
fn backups_in(raw: &str) -> (r: TextSet)
    ensures
        forall|path: Seq<char>| #[trigger] r@.contains(path) <==> declares_backup(raw@, path),
{
    let all = text::chars(raw);
    let lines = text::split_lines(all.as_slice());
    let ghost views = text::pieces(lines@);
    let mut out = TextSet::new();
    let mut i: usize = 0;
    while i < lines.len()
        invariant
            i <= lines.len(),
            views == text::pieces(lines@),
            views == text::lines(raw@),
            forall|path: Seq<char>| #[trigger]
                out@.contains(path) <==> exists|k: int|
                    0 <= k < i && backup_in(#[trigger] views[k]) == Some(path),
        decreases lines.len() - i,
    {
        assert(views[i as int] == lines@[i as int]@);
        if let Some(value) = text::after_text(lines[i], "backup = ") {
            out.insert(text::text(text::trimmed(value)));
        }
        i += 1;
    }
    proof {
        assert forall|path: Seq<char>| #[trigger] out@.contains(path) <==> declares_backup(
            raw@,
            path,
        ) by {
            if declares_backup(raw@, path) {
                let k = choose|k: int|
                    0 <= k < text::lines(raw@).len() && backup_in(#[trigger] text::lines(raw@)[k])
                        == Some(path);
                assert(backup_in(views[k]) == Some(path));
            }
        }
    }
    out
}

/// Puts together a package whose `.PKGINFO` was parsed.
pub fn assemble(
    info: PackageInfo,
    raw: String,
    shipped: Vec<String>,
    install_script: Option<Vec<u8>>,
) -> (r: LoadedPackage)
    ensures
        is_package(
            r,
            info@,
            raw@,
            text::texts(shipped@),
            maybe_bytes(install_script),
        ),
{
    let backups = backups_in(raw.as_str());
    LoadedPackage {
        target: Target {
            name: info.pkgname.clone(),
            version: info.pkgver.clone(),
            files: FileList::new(shipped),
            backups,
            install_script,
        },
        info,
        raw,
    }
}

/// A member's path as a file list spells it.
fn spell(member: &Member) -> (r: String)
    ensures
        r@ == spelled(*member),
{
    let mut out = member.path.clone();
    let n = member.path.as_str().unicode_len();
    let slashed = n > 0 && member.path.as_str().get_char(n - 1) == '/';
    if member.entry == EntryKind::Directory && !slashed {
        out.push('/');
    }
    out
}

/// Whether a member is the metadata of a name.
fn is_named(member: &Member, name: &str) -> (r: bool)
    ensures
        r == is_metadata_of(*member, name@),
{
    member.kind == MemberKind::Metadata && text::same(
        paths::key(member.path.as_str()).as_str(),
        paths::key(name).as_str(),
    )
}

/// What of a member is read.
#[derive(Clone, Copy, Debug, Eq, PartialEq, Structural)]
pub enum Wanted {
    /// The package's description, up to [`MAX_PKGINFO_BYTES`].
    Pkginfo,
    /// The package's scriptlet.
    Scriptlet,
    /// Nothing.
    Nothing,
}

/// What of a member is read.
pub fn wanted(member: &Member) -> (r: Wanted)
    ensures
        r == if is_metadata_of(*member, ".PKGINFO"@) {
            Wanted::Pkginfo
        } else if is_metadata_of(*member, ".INSTALL"@) {
            Wanted::Scriptlet
        } else {
            Wanted::Nothing
        },
{
    if is_named(member, ".PKGINFO") {
        Wanted::Pkginfo
    } else if is_named(member, ".INSTALL") {
        Wanted::Scriptlet
    } else {
        Wanted::Nothing
    }
}

/// What an archive holds.
#[derive(Debug)]
pub struct Contents {
    /// The paths it puts into the root.
    pub shipped: Vec<String>,
    /// The text of its `.PKGINFO`.
    pub pkginfo: Option<String>,
    /// Its `.INSTALL`.
    pub install_script: Option<Vec<u8>>,
}

/// Takes the members of an archive apart.
pub fn contents(reads: Vec<Read>) -> (r: Contents)
    ensures
        text::texts(r.shipped@) == shipped(reads@),
        text::maybe(r.pkginfo) == pkginfo_in(reads@),
        maybe_bytes(r.install_script) == scriptlet_in(reads@),
{
    let mut paths_so_far: Vec<String> = Vec::new();
    let mut pkginfo: Option<String> = None;
    let mut install_script: Option<Vec<u8>> = None;
    let ghost all = reads@;
    let ghost mut i: int = 0;
    assert(all.take(0) =~= Seq::<Read>::empty());
    assert(text::texts(paths_so_far@) =~= Seq::<Seq<char>>::empty());
    for read in it: reads
        invariant
            it.seq() == all,
            it.index() == i,
            text::texts(paths_so_far@) == shipped(all.take(i)),
            text::maybe(pkginfo) == pkginfo_in(all.take(i)),
            maybe_bytes(install_script) == scriptlet_in(all.take(i)),
    {
        proof {
            let so_far = all.take(i + 1);
            assert(so_far.drop_last() =~= all.take(i));
            assert(so_far.last() == read);
        }
        let Read { member, contents } = read;
        if member.kind == MemberKind::Payload {
            paths_so_far.push(spell(&member));
        }
        let script = is_named(&member, ".INSTALL");
        let info = is_named(&member, ".PKGINFO");
        proof {
            lemma_two_names();
        }
        if let Some(bytes) = contents {
            if info {
                if let Some(s) = bytes::text_of(bytes) {
                    pkginfo = Some(s);
                }
            } else if script {
                install_script = Some(bytes);
            }
        }
        proof {
            i = i + 1;
        }
    }
    assert(all.take(all.len() as int) =~= all);
    Contents { shipped: paths_so_far, pkginfo, install_script }
}

/// `.INSTALL` and `.PKGINFO` are two names.
proof fn lemma_two_names()
    ensures
        paths::key_of(".INSTALL"@) != paths::key_of(".PKGINFO"@),
{
    reveal_strlit(".INSTALL");
    reveal_strlit(".PKGINFO");
    lemma_bare_key(".INSTALL"@);
    lemma_bare_key(".PKGINFO"@);
    assert(paths::key_of(".INSTALL"@)[2] != paths::key_of(".PKGINFO"@)[2]);
}

/// The key of a bare name.
proof fn lemma_bare_key(name: Seq<char>)
    requires
        name.len() > 2,
        !name.contains('/'),
        name[1] != '/',
        name[0] != '/',
    ensures
        paths::key_of(name) == seq!['\u{4}'] + name + seq!['\u{0}'],
{
    text::lemma_split_whole(name, '/');
    let pieces = seq![name];
    let keep = |piece: Seq<char>| paths::is_component(piece);
    reveal(Seq::filter);
    assert(pieces.drop_last() =~= Seq::<Seq<char>>::empty());
    assert(pieces.last() == name);
    assert(pieces.filter(keep) =~= pieces);
    assert(paths::components(name) == pieces);
    assert(name != seq!['.', '.']);
    assert(paths::components_key(pieces.drop_last()) =~= Seq::<char>::empty());
    assert(paths::key_of(name) =~= seq!['\u{4}'] + name + seq!['\u{0}']);
}

/// The error for a package without a readable `.PKGINFO`.
pub open spec fn is_absent(error: Error, path: Seq<char>) -> bool {
    error matches Error::UnusableSource { path: at, reason } && at@ == path && reason@
        == "the package has no readable .PKGINFO"@
}

/// The error for a package whose `.PKGINFO` the typed parse refuses.
pub open spec fn is_unreadable(error: Error, path: Seq<char>) -> bool {
    error matches Error::UnusableSource { path: at, reason } && at@ == path && text::starts_with(
        reason@,
        "its .PKGINFO is unreadable: "@,
    )
}

/// The parsed `.PKGINFO` of a package and its text, given that text.
pub fn load_pkginfo(path: &str, pkginfo: Option<String>) -> (r: Result<(PackageInfo, String), Error>)
    ensures
        match pkginfo {
            None => r is Err && is_absent(r->Err_0, path@),
            Some(raw) => match pkginfo::typed_text(pkginfo::substituted(raw@)) {
                None => r is Err && is_unreadable(r->Err_0, path@),
                Some(written) => r is Ok && r->Ok_0.0@ == pkginfo::info_of(
                    written,
                    pkginfo::extra_data(pkginfo::substituted(raw@)),
                ) && r->Ok_0.1 == raw,
            },
        },
{
    let raw = match pkginfo {
        None => {
            return Err(
                Error::UnusableSource {
                    path: path.to_owned(),
                    reason: "the package has no readable .PKGINFO".to_owned(),
                },
            );
        },
        Some(raw) => raw,
    };
    match pkginfo::parse(raw.as_str()) {
        Ok(info) => Ok((info, raw)),
        Err(refused) => {
            let mut reason = "its .PKGINFO is unreadable: ".to_owned();
            let ghost head = reason@;
            reason.push_str(refused.words.as_str());
            assert(reason@.take(head.len() as int) =~= head);
            Err(Error::UnusableSource { path: path.to_owned(), reason })
        },
    }
}

/// Reads a package archive, given its members: its file list, its `.INSTALL` and its `.PKGINFO`.
///
/// A `.PKGINFO` that the typed parse rejects fails here, where nothing has been changed yet.
pub fn load_package(path: &str, reads: Vec<Read>) -> (r: Result<LoadedPackage, Error>)
    ensures
        match pkginfo_in(reads@) {
            None => r is Err && is_absent(r->Err_0, path@),
            Some(raw) => match pkginfo::typed_text(pkginfo::substituted(raw)) {
                None => r is Err && is_unreadable(r->Err_0, path@),
                Some(written) => r is Ok && is_package(
                    r->Ok_0,
                    pkginfo::info_of(
                        written,
                        pkginfo::extra_data(pkginfo::substituted(raw)),
                    ),
                    raw,
                    shipped(reads@),
                    scriptlet_in(reads@),
                ),
            },
        },
{
    let found = contents(reads);
    match load_pkginfo(path, found.pkginfo) {
        Err(error) => Err(error),
        Ok((info, raw)) => Ok(assemble(info, raw, found.shipped, found.install_script)),
    }
}

// ---------------------------------------------------------------------------------------------
// Laws

/// A package's metadata is never part of its file list, and every other member is.
pub proof fn only_metadata_is_left_out(reads: Seq<Read>, k: int)
    requires
        0 <= k < reads.len(),
        reads[k].member.kind == MemberKind::Payload,
    ensures
        shipped(reads).contains(spelled(reads[k].member)),
    decreases reads.len(),
{
    let fewer = reads.drop_last();
    let last = reads.last();
    if k < fewer.len() {
        only_metadata_is_left_out(fewer, k);
        let path = spelled(reads[k].member);
        let i = choose|i: int| 0 <= i < shipped(fewer).len() && shipped(fewer)[i] == path;
        assert(shipped(reads)[i] == path);
    } else {
        assert(shipped(reads)[shipped(fewer).len() as int] == spelled(last.member));
    }
}

} // verus!
