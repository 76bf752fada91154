//! Package files named on the command line: reading them, checking them, fetching them.
//!
//! A package file is a candidate the solver has never seen, addressed by a path rather than by a
//! repository, and governed by its own signature policy. It is verified in the same place, and in
//! the same way, as a repository package.

use vstd::prelude::*;

use crate::error::Error;
use crate::package::{
    debug_text, file_name_of, file_name_refusal, is_full_version, is_name, known_name, known_version, parse_file_name,
    quoted, EntryName, EntryNameView, FileName,
};
use crate::paths;
use crate::pkginfo::{PackageInfo, PackageInfoView};
use crate::plan::Policy;
use crate::text;

verus! {

broadcast use crate::text::group_lists;

/// The candidate the solver sees.
#[derive(Clone, Debug)]
pub struct FilePackage {
    /// Its entry.
    pub entry: EntryName,
    /// The name it is addressed by inside a transaction.
    pub file_name: String,
    /// What it depends on.
    pub depends: Vec<String>,
    /// What it provides.
    pub provides: Vec<String>,
    /// What it conflicts with.
    pub conflicts: Vec<String>,
    /// What it replaces.
    pub replaces: Vec<String>,
    /// The groups it belongs to.
    pub groups: Vec<String>,
    /// Its installed size in bytes.
    pub installed_size: u64,
}

/// What a [`FilePackage`] holds.
pub struct FilePackageView {
    /// Its entry.
    pub entry: EntryNameView,
    /// The name it is addressed by.
    pub file_name: Seq<char>,
    /// What it depends on.
    pub depends: Seq<Seq<char>>,
    /// What it provides.
    pub provides: Seq<Seq<char>>,
    /// What it conflicts with.
    pub conflicts: Seq<Seq<char>>,
    /// What it replaces.
    pub replaces: Seq<Seq<char>>,
    /// The groups it belongs to.
    pub groups: Seq<Seq<char>>,
    /// Its installed size.
    pub installed_size: u64,
}

impl View for FilePackage {
    type V = FilePackageView;

    open spec fn view(&self) -> FilePackageView {
        FilePackageView {
            entry: self.entry@,
            file_name: self.file_name@,
            depends: text::texts(self.depends@),
            provides: text::texts(self.provides@),
            conflicts: text::texts(self.conflicts@),
            replaces: text::texts(self.replaces@),
            groups: text::texts(self.groups@),
            installed_size: self.installed_size,
        }
    }
}

/// One package file a transaction will install, read far enough to plan with.
#[derive(Clone, Debug)]
pub struct FileTarget {
    path: String,
    architecture: String,
    candidate: FilePackage,
    policy: Policy,
}

/// What a [`FileTarget`] holds.
pub struct FileTargetView {
    /// Where the file is.
    pub path: Seq<char>,
    /// The architecture it was built for.
    pub architecture: Seq<char>,
    /// The candidate.
    pub candidate: FilePackageView,
    /// What is asked of its signature.
    pub policy: Policy,
}

impl View for FileTarget {
    type V = FileTargetView;

    closed spec fn view(&self) -> FileTargetView {
        FileTargetView {
            path: self.path@,
            architecture: self.architecture@,
            candidate: self.candidate@,
            policy: self.policy,
        }
    }
}

/// The views of a list of targets.
pub open spec fn target_views(list: Seq<FileTarget>) -> Seq<FileTargetView> {
    Seq::new(list.len(), |i: int| list[i]@)
}

impl FileTarget {
    /// Where the file is.
    pub fn path(&self) -> (r: &str)
        ensures
            r@ == self@.path,
    {
        self.path.as_str()
    }

    /// The name this package is addressed by inside a transaction.
    ///
    /// It is built from the `.PKGINFO`, not from the file's own name: a file renamed on disk is
    /// still the package it was built as.
    pub fn file_name(&self) -> (r: &str)
        ensures
            r@ == self@.candidate.file_name,
    {
        self.candidate.file_name.as_str()
    }

    /// The candidate the solver sees.
    pub fn candidate(&self) -> (r: &FilePackage)
        ensures
            r@ == self@.candidate,
    {
        &self.candidate
    }

    /// The signature policy this file is held to.
    pub fn policy(&self) -> (r: Policy)
        ensures
            r == self@.policy,
    {
        self.policy
    }

    /// The architecture its `.PKGINFO` declares.
    pub fn architecture(&self) -> (r: &str)
        ensures
            r@ == self@.architecture,
    {
        self.architecture.as_str()
    }
}

/// Why package files cannot be installed together, or a URL names none.
#[derive(Clone, Debug)]
pub enum TargetError {
    /// Files were built for an architecture that is not configured.
    WrongArchitecture {
        /// Each file, with its architecture.
        packages: Vec<String>,
        /// What is configured.
        configured: Vec<String>,
    },
    /// Two files would install the same package.
    DuplicateTarget {
        /// The package.
        package: String,
        /// The first file.
        first: String,
        /// The second file.
        second: String,
    },
    /// A URL does not name a package file.
    InvalidPackageUrl {
        /// The URL.
        url: String,
        /// Why not.
        reason: String,
    },
}

// ---------------------------------------------------------------------------------------------
// Reading

/// Whether an extension is that of a compression format.
pub open spec fn is_compression(extension: Seq<char>) -> bool {
    ||| extension == "Z"@
    ||| extension == "bz2"@
    ||| extension == "gz"@
    ||| extension == "lrz"@
    ||| extension == "lz"@
    ||| extension == "lz4"@
    ||| extension == "lzo"@
    ||| extension == "xz"@
    ||| extension == "zst"@
}

/// The extension of a file name: what follows its last dot, unless the name starts with that.
pub open spec fn extension_of(name: Seq<char>) -> Option<Seq<char>> {
    match text::last_of(name, '.', '.') {
        Some(i) => if i > 0 {
            Some(name.skip(i + 1))
        } else {
            None
        },
        None => None,
    }
}

/// The compression a file's own name declares, as it is written after a dot.
///
/// It affects only the name a package is addressed by; the archive itself is decompressed by its
/// magic bytes. An unrecognised name gives an uncompressed-looking key.
pub open spec fn compression_in(path: Seq<char>) -> Seq<char> {
    match paths::spec_file_name(path) {
        Some(name) => match extension_of(name) {
            Some(extension) => if is_compression(extension) {
                seq!['.'] + extension
            } else {
                Seq::empty()
            },
            None => Seq::empty(),
        },
        None => Seq::empty(),
    }
}

/// The name of a package file.
pub open spec fn package_file_name(
    name: Seq<char>,
    version: Seq<char>,
    architecture: Seq<char>,
    compression: Seq<char>,
) -> Seq<char> {
    name + "-"@ + version + "-"@ + architecture + ".pkg.tar"@ + compression
}

/// The candidate that a `.PKGINFO` describes.
pub open spec fn candidate_of(info: PackageInfoView, path: Seq<char>) -> FilePackageView {
    FilePackageView {
        entry: EntryNameView { name: info.pkgname, version: info.pkgver },
        file_name: package_file_name(info.pkgname, info.pkgver, info.arch, compression_in(path)),
        depends: info.depend,
        provides: info.provides,
        conflicts: info.conflict,
        replaces: info.replaces,
        groups: info.group,
        installed_size: match text::unsigned(info.size) {
            Some(n) => if 0 <= n <= u64::MAX {
                n as u64
            } else {
                0
            },
            None => 0,
        },
    }
}

/// The compression a file's own name declares, as it is written after a dot.
fn compression_of(path: &str) -> (r: String)
    ensures
        r@ == compression_in(path@),
{
    let all = text::chars(path);
    let none = String::new();
    assert(none@ =~= Seq::<char>::empty());
    let name = match paths::file_name(all.as_slice()) {
        Some(name) => name,
        None => {
            return none;
        },
    };
    match text::rfind_either(name, '.', '.') {
        Some(i) => {
            if i > 0 {
                let extension = vstd::slice::slice_subrange(name, i + 1, name.len());
                assert(extension@ =~= name@.skip(i + 1));
                if text::spells(extension, "Z") || text::spells(extension, "bz2") || text::spells(
                    extension,
                    "gz",
                ) || text::spells(extension, "lrz") || text::spells(extension, "lz")
                    || text::spells(extension, "lz4") || text::spells(extension, "lzo")
                    || text::spells(extension, "xz") || text::spells(extension, "zst") {
                    let mut out = String::new();
                    out.push('.');
                    out.push_str(text::text(extension).as_str());
                    assert(out@ =~= seq!['.'] + extension@);
                    return out;
                }
            }
            none
        },
        None => none,
    }
}

/// Builds the target of a package file, given whether its name and version are well formed.
pub fn assemble(path: &str, info: &PackageInfo, known: bool, policy: Policy) -> (r: Result<
    FileTarget,
    Error,
>)
    ensures
        match r {
            Ok(target) => known && target@ == (FileTargetView {
                path: path@,
                architecture: info@.arch,
                candidate: candidate_of(info@, path@),
                policy,
            }),
            Err(error) => !known && is_nameless(error, path@),
        },
{
    let entry = match EntryName::checked(info.pkgname.clone(), info.pkgver.clone(), known) {
        Some(entry) => entry,
        None => {
            return Err(
                Error::UnusableSource {
                    path: path.to_owned(),
                    reason: "it is not a package name and a full version".to_owned(),
                },
            );
        },
    };
    let mut file_name = info.pkgname.clone();
    file_name.push_str("-");
    file_name.push_str(info.pkgver.as_str());
    file_name.push_str("-");
    file_name.push_str(info.arch.as_str());
    file_name.push_str(".pkg.tar");
    file_name.push_str(compression_of(path).as_str());
    let digits = text::chars(info.size.as_str());
    let installed_size = match text::parse_unsigned(digits.as_slice(), u64::MAX) {
        Some(n) => n,
        None => 0,
    };
    Ok(
        FileTarget {
            path: path.to_owned(),
            architecture: info.arch.clone(),
            candidate: FilePackage {
                entry,
                file_name,
                depends: text::copied(&info.depend),
                provides: text::copied(&info.provides),
                conflicts: text::copied(&info.conflict),
                replaces: text::copied(&info.replaces),
                groups: text::copied(&info.group),
                installed_size,
            },
            policy,
        },
    )
}

/// The error for a package whose name and version make no entry.
pub open spec fn is_nameless(error: Error, path: Seq<char>) -> bool {
    error matches Error::UnusableSource { path: at, reason } && at@ == path && reason@
        == "it is not a package name and a full version"@
}

/// Reads a package file far enough to plan with it, given its parsed `.PKGINFO`.
pub fn load(path: &str, info: &PackageInfo, policy: Policy) -> (r: Result<FileTarget, Error>)
    ensures
        match r {
            Ok(target) => {
                &&& is_name(info@.pkgname) && is_full_version(info@.pkgver)
                &&& target@ == (FileTargetView {
                    path: path@,
                    architecture: info@.arch,
                    candidate: candidate_of(info@, path@),
                    policy,
                })
            },
            Err(error) => !(is_name(info@.pkgname) && is_full_version(info@.pkgver))
                && is_nameless(error, path@),
        },
{
    let known = known_name(info.pkgname.as_str()) && known_version(info.pkgver.as_str());
    assemble(path, info, known, policy)
}

// ---------------------------------------------------------------------------------------------
// Checking

/// Whether a target was built for an architecture that is not configured. `any` always passes, and
/// otherwise the match is literal.
pub open spec fn is_foreign(target: FileTargetView, configured: Seq<Seq<char>>) -> bool {
    target.architecture != "any"@ && !configured.contains(target.architecture)
}

/// How a refused target is named.
pub open spec fn refused_words(target: FileTargetView) -> Seq<char> {
    target.candidate.file_name + " ("@ + target.architecture + ")"@
}

/// The first targets that are refused, in order.
pub open spec fn refused(targets: Seq<FileTargetView>, configured: Seq<Seq<char>>) -> Seq<Seq<char>>
    decreases targets.len(),
{
    if targets.len() == 0 {
        Seq::empty()
    } else {
        let before = refused(targets.drop_last(), configured);
        if is_foreign(targets.last(), configured) {
            before.push(refused_words(targets.last()))
        } else {
            before
        }
    }
}

/// Whether a list holds a text.
fn holds(list: &Vec<String>, name: &str) -> (r: bool)
    ensures
        r == text::texts(list@).contains(name@),
{
    let mut i: usize = 0;
    while i < list.len()
        invariant
            i <= list.len(),
            forall|k: int| 0 <= k < i ==> (#[trigger] list@[k])@ != name@,
        decreases list.len() - i,
    {
        if text::same(list[i].as_str(), name) {
            assert(text::texts(list@)[i as int] == name@);
            return true;
        }
        i += 1;
    }
    assert forall|k: int| 0 <= k < text::texts(list@).len() implies text::texts(list@)[k]
        != name@ by {
        assert(list@[k]@ != name@);
    }
    false
}

/// Refuses files built for an architecture this machine is not configured to run, naming every one
/// of them. Nothing is refused where no architecture is configured.
pub fn check_architecture(targets: &Vec<FileTarget>, configured: &Vec<String>) -> (r: Result<
    (),
    TargetError,
>)
    ensures
        ({
            let all = refused(target_views(targets@), text::texts(configured@));
            match r {
                Ok(()) => configured@.len() == 0 || all.len() == 0,
                Err(error) => {
                    &&& configured@.len() > 0 && all.len() > 0
                    &&& error matches TargetError::WrongArchitecture { packages, configured: known }
                        && text::texts(packages@) == all && text::texts(known@) == text::texts(
                        configured@,
                    )
                },
            }
        }),
{
    if configured.len() == 0 {
        return Ok(());
    }
    let ghost views = target_views(targets@);
    let ghost known = text::texts(configured@);
    let mut packages: Vec<String> = Vec::new();
    let mut i: usize = 0;
    assert(views.take(0) =~= Seq::<FileTargetView>::empty());
    assert(text::texts(packages@) =~= Seq::<Seq<char>>::empty());
    while i < targets.len()
        invariant
            i <= targets.len(),
            views == target_views(targets@),
            known == text::texts(configured@),
            text::texts(packages@) == refused(views.take(i as int), known),
        decreases targets.len() - i,
    {
        let target = &targets[i];
        proof {
            let so_far = views.take(i + 1);
            assert(so_far.drop_last() =~= views.take(i as int));
            assert(so_far.last() == target@);
        }
        if !text::same(target.architecture(), "any") && !holds(configured, target.architecture()) {
            let mut words = target.file_name().to_owned();
            words.push_str(" (");
            words.push_str(target.architecture());
            words.push_str(")");
            packages.push(words);
        }
        i += 1;
    }
    assert(views.take(i as int) =~= views);
    assert(text::texts(packages@).len() == packages@.len());
    if packages.len() == 0 {
        return Ok(());
    }
    Err(TargetError::WrongArchitecture { packages, configured: text::copied(configured) })
}

/// The last of the first `n` targets that has a file name.
pub open spec fn last_named(targets: Seq<FileTargetView>, name: Seq<char>, n: int) -> Option<
    FileTargetView,
>
    decreases n,
{
    if n <= 0 {
        None
    } else if targets[n - 1].candidate.file_name == name {
        Some(targets[n - 1])
    } else {
        last_named(targets, name, n - 1)
    }
}

/// The first target from `i` on whose name an earlier one has.
pub open spec fn first_repeat(targets: Seq<FileTargetView>, i: int) -> Option<int>
    decreases targets.len() - i,
{
    if i >= targets.len() {
        None
    } else if last_named(targets, targets[i].candidate.file_name, i) is Some {
        Some(i)
    } else {
        first_repeat(targets, i + 1)
    }
}

/// Refuses two targets that would install the same package: only one of them could be served.
pub fn check_duplicates(targets: &Vec<FileTarget>) -> (r: Result<(), TargetError>)
    ensures
        match first_repeat(target_views(targets@), 0) {
            None => r is Ok,
            Some(i) => {
                let views = target_views(targets@);
                let name = views[i].candidate.file_name;
                &&& 0 <= i < views.len()
                &&& r matches Err(TargetError::DuplicateTarget { package, first, second })
                    && package@ == name && first@ == last_named(views, name, i)->0.path && second@
                    == views[i].path
            },
        },
{
    let ghost views = target_views(targets@);
    let mut i: usize = 0;
    while i < targets.len()
        invariant
            i <= targets.len(),
            views == target_views(targets@),
            first_repeat(views, 0) == first_repeat(views, i as int),
        decreases targets.len() - i,
    {
        let target = &targets[i];
        assert(views[i as int] == target@);
        let mut n: usize = i;
        while n > 0
            invariant
                n <= i < targets.len(),
                views == target_views(targets@),
                views[i as int] == target@,
                first_repeat(views, 0) == first_repeat(views, i as int),
                last_named(views, target@.candidate.file_name, i as int) == last_named(
                    views,
                    target@.candidate.file_name,
                    n as int,
                ),
            decreases n,
        {
            let other = &targets[n - 1];
            assert(views[n - 1] == other@);
            if text::same(other.file_name(), target.file_name()) {
                return Err(
                    TargetError::DuplicateTarget {
                        package: target.file_name().to_owned(),
                        first: other.path().to_owned(),
                        second: target.path().to_owned(),
                    },
                );
            }
            n -= 1;
        }
        i += 1;
    }
    Ok(())
}

// ---------------------------------------------------------------------------------------------
// Fetching

/// A URL, split at its last `/` into a server and a file name.
pub open spec fn split_url(url: Seq<char>) -> Option<(Seq<char>, Seq<char>)> {
    match text::last_of(url, '/', '/') {
        Some(i) => Some((url.take(i), url.skip(i + 1))),
        None => None,
    }
}

/// A package that is named by a URL.
#[derive(Clone, Debug)]
pub struct PackageUrl {
    /// The server.
    pub server: String,
    /// The package's file name.
    pub file_name: FileName,
}

/// Why the last component of a URL is no package file name, given the words it is refused with.
pub open spec fn url_reason(last: Seq<char>, words: Seq<char>) -> Seq<char> {
    debug_text(last) + " is not a package file name: "@ + words
}

/// A URL that names a package, given what its last component says as a package file name, or the
/// words with which it is refused.
pub fn named_url(url: &str, server: String, last: &str, parsed: Result<FileName, String>) -> (r:
    Result<PackageUrl, TargetError>)
    ensures
        match parsed {
            Ok(file_name) => r matches Ok(found) && found.server == server && found.file_name
                == file_name,
            Err(words) => r matches Err(TargetError::InvalidPackageUrl { url: at, reason }) && at@
                == url@ && reason@ == url_reason(last@, words@),
        },
{
    match parsed {
        Ok(file_name) => Ok(PackageUrl { server, file_name }),
        Err(words) => {
            let mut reason = quoted(last);
            reason.push_str(" is not a package file name: ");
            reason.push_str(words.as_str());
            Err(TargetError::InvalidPackageUrl { url: url.to_owned(), reason })
        },
    }
}

/// Splits a URL into a server and a package file name.
///
/// The words at the end of a refusal are those of the file name's own refusal.
pub fn parse_url(url: &str) -> (r: Result<PackageUrl, TargetError>)
    ensures
        match split_url(url@) {
            None => r matches Err(TargetError::InvalidPackageUrl { url: at, reason }) && at@ == url@
                && reason@ == "it has no path component"@,
            Some((server, last)) => match file_name_of(last) {
                Some(file_name) => r matches Ok(found) && found.server@ == server
                    && found.file_name@ == file_name,
                None => r matches Err(TargetError::InvalidPackageUrl { url: at, reason }) && at@
                    == url@ && exists|words: Seq<char>| reason@ == #[trigger] url_reason(
                    last,
                    words,
                ),
            },
        },
{
    let all = text::chars(url);
    let whole = all.as_slice();
    match text::rfind_either(whole, '/', '/') {
        None => Err(
            TargetError::InvalidPackageUrl {
                url: url.to_owned(),
                reason: "it has no path component".to_owned(),
            },
        ),
        Some(i) => {
            let server = vstd::slice::slice_subrange(whole, 0, i);
            let last = vstd::slice::slice_subrange(whole, i + 1, whole.len());
            assert(server@ =~= url@.take(i as int));
            assert(last@ =~= url@.skip(i + 1));
            let last = text::text(last);
            let parsed = match parse_file_name(last.as_str()) {
                Some(file_name) => Ok(file_name),
                None => Err(file_name_refusal(last.as_str())),
            };
            named_url(url, text::text(server), last.as_str(), parsed)
        },
    }
}

/// A copy of a package that a cache directory holds.
#[derive(Clone, Debug)]
pub struct Cached {
    /// Its path.
    pub path: String,
    /// Whether a signature is beside it.
    pub signed: bool,
}

/// How the package that a URL names is had.
#[derive(Clone, Debug)]
pub enum Fetch {
    /// From a cache directory.
    Cached {
        /// The path.
        path: String,
    },
    /// From the server, together with its signature where one is asked for.
    Download {
        /// The server and the file name.
        target: PackageUrl,
    },
}

/// Decides how the package that a URL names is had, given the copy that a cache directory holds
/// under its file name.
///
/// A copy is used unless a signature is asked for and none is beside it. Otherwise the file is
/// fetched again, so that the signature arrives with it. No directory to download into is needed
/// for a copy that is used.
pub fn fetch_url(target: PackageUrl, located: Option<Cached>, policy: Policy) -> (r: Fetch)
    ensures
        match located {
            Some(copy) if policy.check ==> copy.signed => r == (Fetch::Cached { path: copy.path }),
            _ => r == (Fetch::Download { target }),
        },
{
    match located {
        Some(copy) if !policy.check || copy.signed => Fetch::Cached { path: copy.path },
        _ => Fetch::Download { target },
    }
}

// ---------------------------------------------------------------------------------------------
// Laws

/// Where no target repeats another, every two have two names.
pub proof fn accepted_targets_are_distinct(targets: Seq<FileTargetView>, i: int, j: int)
    requires
        first_repeat(targets, 0) is None,
        0 <= i < j < targets.len(),
    ensures
        targets[i].candidate.file_name != targets[j].candidate.file_name,
{
    lemma_no_repeat(targets, 0, j);
    lemma_none_named(targets, targets[j].candidate.file_name, j, i);
}

/// Where no target from `from` on repeats another, `j` does not.
proof fn lemma_no_repeat(targets: Seq<FileTargetView>, from: int, j: int)
    requires
        first_repeat(targets, from) is None,
        from <= j < targets.len(),
    ensures
        last_named(targets, targets[j].candidate.file_name, j) is None,
    decreases j - from,
{
    if from < j {
        lemma_no_repeat(targets, from + 1, j);
    }
}

/// Where none of the first `n` targets has a name, `i` does not.
proof fn lemma_none_named(targets: Seq<FileTargetView>, name: Seq<char>, n: int, i: int)
    requires
        last_named(targets, name, n) is None,
        0 <= i < n,
    ensures
        targets[i].candidate.file_name != name,
    decreases n,
{
    if i < n - 1 {
        lemma_none_named(targets, name, n - 1, i);
    }
}

/// A package built for any architecture is never refused.
pub proof fn any_architecture_passes(target: FileTargetView, configured: Seq<Seq<char>>)
    requires
        target.architecture == "any"@,
    ensures
        !is_foreign(target, configured),
{
}

} // verus!
