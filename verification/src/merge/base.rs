//! The version a three-way merge starts from: what the previous build of a package shipped, out of
//! a package cache.

use vstd::prelude::*;

use crate::error::{Error, Limit};
use crate::extract::archive::{is_limit_error, limit_error, Flow, Member, PackageLimits};
use crate::extract::decision::EntryKind;
use crate::hash::MAX_BACKUP_BYTES;
use crate::package::{file_name_of, order, ordered, parse_file_name, FileName};
use crate::paths;
use crate::text;

verus! {

broadcast use crate::text::group_lists;

/// A cached package that a merge can start from.
#[derive(Clone, Debug, Eq, PartialEq)]
pub struct BaseCandidate {
    /// Where it is.
    pub path: String,
    /// What its file name says.
    pub file_name: FileName,
}

/// What a [`BaseCandidate`] holds.
pub struct BaseCandidateView {
    /// Where it is.
    pub path: Seq<char>,
    /// What its file name says.
    pub file_name: crate::package::FileNameView,
}

impl View for BaseCandidate {
    type V = BaseCandidateView;

    open spec fn view(&self) -> BaseCandidateView {
        BaseCandidateView { path: self.path@, file_name: self.file_name@ }
    }
}

/// The view of a candidate that may be missing.
pub open spec fn maybe_candidate(r: Option<BaseCandidate>) -> Option<BaseCandidateView> {
    match r {
        Some(candidate) => Some(candidate@),
        None => None,
    }
}

/// Bounds on what looking for a base may cost.
#[derive(Clone, Copy, Debug, Eq, PartialEq, Structural)]
pub struct BaseLimits {
    /// Largest number of entries looked at in one cache directory.
    pub max_cache_entries: usize,
    /// Largest member that is read.
    pub max_member_bytes: u64,
    /// Bounds on reading the package.
    pub package: PackageLimits,
}

impl Default for BaseLimits {
    fn default() -> (r: Self)
        ensures
            r.max_cache_entries == 200_000,
            r.max_member_bytes == MAX_BACKUP_BYTES,
            r.package == PackageLimits::spec_default(),
    {
        BaseLimits {
            max_cache_entries: 200_000,
            max_member_bytes: MAX_BACKUP_BYTES,
            package: PackageLimits::default(),
        }
    }
}

/// One entry of a cache directory.
#[derive(Clone, Debug)]
pub struct CacheEntry {
    /// Its name, where it could be read and is text.
    pub name: Option<String>,
    /// Whether it is a regular file. A link is none.
    pub is_file: bool,
}

/// One cache directory.
#[derive(Clone, Debug)]
pub struct CacheDirectory {
    /// Its path.
    pub path: String,
    /// Its entries, in the order they arrive. `None` where it cannot be read.
    pub entries: Option<Vec<CacheEntry>>,
}

/// Whether a package file name is that of an older build of `package`.
pub open spec fn is_older_build(
    parsed: crate::package::FileNameView,
    package: Seq<char>,
    installed: Seq<char>,
) -> bool {
    parsed.name == package && ordered(parsed.version, installed) == Some(-1i8)
}

/// The candidate that an entry of the directory `path` is, where it is one. A cache holds
/// signatures, partial downloads and whatever else landed there.
pub open spec fn candidate_of(
    path: Seq<char>,
    entry: CacheEntry,
    package: Seq<char>,
    installed: Seq<char>,
) -> Option<BaseCandidateView> {
    match entry.name {
        None => None,
        Some(name) => if text::ends_with(name@, ".sig"@) || !entry.is_file {
            None
        } else {
            match file_name_of(name@) {
                Some(parsed) => if is_older_build(parsed, package, installed) {
                    Some(
                        BaseCandidateView {
                            path: paths::joined(path, name@),
                            file_name: parsed,
                        },
                    )
                } else {
                    None
                },
                None => None,
            }
        },
    }
}

/// The better of what was found so far and one more candidate: only a strictly newer one wins.
pub open spec fn better(best: Option<BaseCandidateView>, new: Option<BaseCandidateView>) -> Option<
    BaseCandidateView,
> {
    match (best, new) {
        (_, None) => best,
        (None, _) => new,
        (Some(a), Some(b)) => if ordered(b.file_name.version, a.file_name.version) == Some(
            1i8,
        ) {
            new
        } else {
            best
        },
    }
}

/// The best of what was found so far and the entries of one directory, in order.
pub open spec fn best_in(
    best: Option<BaseCandidateView>,
    path: Seq<char>,
    entries: Seq<CacheEntry>,
    package: Seq<char>,
    installed: Seq<char>,
) -> Option<BaseCandidateView>
    decreases entries.len(),
{
    if entries.len() == 0 {
        best
    } else {
        better(
            best_in(best, path, entries.drop_last(), package, installed),
            candidate_of(path, entries.last(), package, installed),
        )
    }
}

/// The first entries of a directory, as far as they are looked at.
pub open spec fn looked_at(directory: CacheDirectory, max: usize) -> Seq<CacheEntry> {
    match directory.entries {
        None => Seq::empty(),
        Some(entries) => if entries@.len() > max {
            entries@.take(max as int)
        } else {
            entries@
        },
    }
}

/// The best candidate of the first directories.
pub open spec fn best_of(
    directories: Seq<CacheDirectory>,
    max: usize,
    package: Seq<char>,
    installed: Seq<char>,
) -> Option<BaseCandidateView>
    decreases directories.len(),
{
    if directories.len() == 0 {
        None
    } else {
        best_in(
            best_of(directories.drop_last(), max, package, installed),
            directories.last().path@,
            looked_at(directories.last(), max),
            package,
            installed,
        )
    }
}

/// What an entry called `name` in the directory `path` is worth, given what its name says, how its
/// version stands to the installed one, and whether it is a file.
pub fn weigh(
    path: &str,
    name: &str,
    parsed: FileName,
    package: &str,
    order: Option<i8>,
    is_file: bool,
) -> (r: Option<BaseCandidate>)
    ensures
        match r {
            Some(candidate) => {
                &&& parsed@.name == package@ && order == Some(-1i8) && is_file
                &&& candidate@ == (BaseCandidateView {
                    path: paths::joined(path@, name@),
                    file_name: parsed@,
                })
            },
            None => !(parsed@.name == package@ && order == Some(-1i8) && is_file),
        },
{
    if !text::same(parsed.name.as_str(), package) {
        return None;
    }
    let older = match order {
        Some(n) => n == -1,
        None => false,
    };
    if !older || !is_file {
        return None;
    }
    Some(BaseCandidate { path: paths::join(path, name), file_name: parsed })
}

/// The better of two candidates, given how the version of the second stands to that of the first.
pub fn prefer(best: BaseCandidate, new: BaseCandidate, order: Option<i8>) -> (r: BaseCandidate)
    ensures
        r == if order == Some(1i8) {
            new
        } else {
            best
        },
{
    match order {
        Some(n) => {
            if n == 1 {
                new
            } else {
                best
            }
        },
        None => best,
    }
}

/// One entry of a cache directory, looked at.
fn consider(
    best: Option<BaseCandidate>,
    path: &str,
    entry: &CacheEntry,
    package: &str,
    installed: &str,
) -> (r: Option<BaseCandidate>)
    ensures
        maybe_candidate(r) == better(
            maybe_candidate(best),
            candidate_of(path@, *entry, package@, installed@),
        ),
{
    let name = match &entry.name {
        None => {
            return best;
        },
        Some(name) => name.as_str(),
    };
    let all = text::chars(name);
    if text::before_text(all.as_slice(), ".sig").is_some() {
        return best;
    }
    let parsed = match parse_file_name(name) {
        None => {
            return best;
        },
        Some(parsed) => parsed,
    };
    if !text::same(parsed.name.as_str(), package) {
        return best;
    }
    let stands = order(parsed.version.as_str(), installed);
    let new = match weigh(path, name, parsed, package, stands, entry.is_file) {
        None => {
            return best;
        },
        Some(new) => new,
    };
    match best {
        None => Some(new),
        Some(best) => {
            let stands = order(
                new.file_name.version.as_str(),
                best.file_name.version.as_str(),
            );
            Some(prefer(best, new, stands))
        },
    }
}

/// Finds the newest cached build of `package` that is older than the installed one.
///
/// A directory that cannot be read is passed over. A later directory only wins by being strictly
/// newer, so the first directory keeps a version both hold. A build whose version cannot be
/// compared with the installed one is passed over too.
pub fn find_base(
    directories: &Vec<CacheDirectory>,
    package: &str,
    installed: &str,
    limits: &BaseLimits,
) -> (r: Option<BaseCandidate>)
    ensures
        maybe_candidate(r) == best_of(
            directories@,
            limits.max_cache_entries,
            package@,
            installed@,
        ),
{
    let mut best: Option<BaseCandidate> = None;
    let max = limits.max_cache_entries;
    let mut i: usize = 0;
    assert(directories@.take(0) =~= Seq::<CacheDirectory>::empty());
    while i < directories.len()
        invariant
            i <= directories.len(),
            max == limits.max_cache_entries,
            maybe_candidate(best) == best_of(
                directories@.take(i as int),
                max,
                package@,
                installed@,
            ),
        decreases directories.len() - i,
    {
        let directory = &directories[i];
        let ghost before = maybe_candidate(best);
        let ghost seen = looked_at(*directory, max);
        proof {
            let so_far = directories@.take(i + 1);
            assert(so_far.drop_last() =~= directories@.take(i as int));
            assert(so_far.last() == *directory);
            assert(seen.take(0) =~= Seq::<CacheEntry>::empty());
        }
        if let Some(entries) = &directory.entries {
            let mut j: usize = 0;
            while j < entries.len() && j < max
                invariant
                    j <= entries.len(),
                    j <= max,
                    seen == looked_at(*directory, max),
                    directory.entries == Some(*entries),
                    maybe_candidate(best) == best_in(
                        before,
                        directory.path@,
                        seen.take(j as int),
                        package@,
                        installed@,
                    ),
                decreases entries.len() - j,
            {
                proof {
                    let so_far = seen.take(j + 1);
                    assert(so_far.drop_last() =~= seen.take(j as int));
                    assert(so_far.last() == entries@[j as int]);
                }
                best = consider(best, directory.path.as_str(), &entries[j], package, installed);
                j += 1;
            }
            assert(seen.take(j as int) =~= seen);
        }
        i += 1;
    }
    assert(directories@.take(i as int) =~= directories@);
    best
}

// ---------------------------------------------------------------------------------------------
// One member of the base

/// What a member of a package means for one who looks for a path.
#[derive(Clone, Copy, Debug, Eq, PartialEq, Structural)]
pub enum Look {
    /// It is another path.
    Other,
    /// It is the path, but no regular file: there is nothing to merge.
    Contentless,
    /// It is the path. Its contents are to be read, up to one byte past the limit.
    Contents,
}

/// Whether a member is the path that is looked for. Paths that differ in `.` and in separators
/// alone are one.
pub open spec fn is_wanted(member: Member, wanted: Seq<char>) -> bool {
    paths::names(member.path@) == paths::names(wanted)
}

/// What a member means for one who looks for `wanted`. One that is too large is an error.
pub fn look(member: &Member, wanted: &str, limits: &BaseLimits) -> (r: Result<Look, Error>)
    ensures
        match r {
            Ok(Look::Other) => !is_wanted(*member, wanted@),
            Ok(Look::Contentless) => is_wanted(*member, wanted@) && !member.is_file(),
            Ok(Look::Contents) => is_wanted(*member, wanted@) && member.is_file() && member.size
                <= limits.max_member_bytes,
            Err(error) => is_wanted(*member, wanted@) && member.is_file() && member.size
                > limits.max_member_bytes && is_limit_error(
                error,
                wanted@,
                Limit::MergeBaseSize,
                limits.max_member_bytes,
            ),
        },
{
    let ours = text::chars(member.path.as_str());
    let theirs = text::chars(wanted);
    if !same_pieces(
        &paths::name_parts(ours.as_slice()),
        &paths::name_parts(theirs.as_slice()),
    ) {
        return Ok(Look::Other);
    }
    if !member.is_regular || member.entry != EntryKind::Other || member.link.is_some() {
        return Ok(Look::Contentless);
    }
    if member.size > limits.max_member_bytes {
        return Err(limit_error(wanted, Limit::MergeBaseSize, limits.max_member_bytes));
    }
    Ok(Look::Contents)
}

/// Whether two lists of slices hold the same texts.
fn same_pieces(a: &Vec<&[char]>, b: &Vec<&[char]>) -> (r: bool)
    ensures
        r == (text::pieces(a@) == text::pieces(b@)),
{
    if a.len() != b.len() {
        assert(text::pieces(a@).len() != text::pieces(b@).len());
        return false;
    }
    let mut i: usize = 0;
    while i < a.len()
        invariant
            i <= a.len(),
            a.len() == b.len(),
            forall|k: int| 0 <= k < i ==> a@[k]@ == b@[k]@,
        decreases a.len() - i,
    {
        if !text::equal(a[i], b[i]) {
            assert(text::pieces(a@)[i as int] != text::pieces(b@)[i as int]);
            return false;
        }
        i += 1;
    }
    assert(text::pieces(a@) =~= text::pieces(b@));
    true
}

/// The contents that were read for a member. The header's size is the archive's claim, so what was
/// read is measured again.
pub fn taken(wanted: &str, buffer: Vec<u8>, limits: &BaseLimits) -> (r: Result<Vec<u8>, Error>)
    ensures
        match r {
            Ok(contents) => contents == buffer && buffer@.len() <= limits.max_member_bytes,
            Err(error) => buffer@.len() > limits.max_member_bytes && is_limit_error(
                error,
                wanted@,
                Limit::MergeBaseSize,
                limits.max_member_bytes,
            ),
        },
{
    if buffer.len() as u64 > limits.max_member_bytes {
        return Err(limit_error(wanted, Limit::MergeBaseSize, limits.max_member_bytes));
    }
    Ok(buffer)
}

/// A member and what is read of it.
#[derive(Debug)]
pub struct Content {
    /// The member.
    pub member: Member,
    /// Its contents.
    pub bytes: Vec<u8>,
}

/// The first member from `i` on that is the path that is looked for.
pub open spec fn first_wanted(members: Seq<Content>, wanted: Seq<char>, i: int) -> Option<Content>
    decreases members.len() - i,
{
    if i >= members.len() {
        None
    } else if is_wanted(members[i].member, wanted) {
        Some(members[i])
    } else {
        first_wanted(members, wanted, i + 1)
    }
}

/// The contents of the first member of a package that is `wanted`.
///
/// Anything but a regular file there means the package stopped shipping one, which is an answer
/// rather than a failure.
pub fn extract_member(members: Vec<Content>, wanted: &str, limits: &BaseLimits) -> (r: Result<
    Option<Vec<u8>>,
    Error,
>)
    ensures
        match first_wanted(members@, wanted@, 0) {
            None => r == Ok::<Option<Vec<u8>>, Error>(None),
            Some(content) => if !content.member.is_file() {
                r == Ok::<Option<Vec<u8>>, Error>(None)
            } else if content.member.size > limits.max_member_bytes || content.bytes@.len()
                > limits.max_member_bytes {
                r is Err && is_limit_error(
                    r->Err_0,
                    wanted@,
                    Limit::MergeBaseSize,
                    limits.max_member_bytes,
                )
            } else {
                r == Ok::<Option<Vec<u8>>, Error>(Some(content.bytes))
            },
        },
{
    let ghost all = members@;
    let ghost mut i: int = 0;
    for content in it: members
        invariant
            it.seq() == all,
            it.index() == i,
            first_wanted(all, wanted@, 0) == first_wanted(all, wanted@, i),
    {
        proof {
            assert(content == all[i]);
        }
        match look(&content.member, wanted, limits) {
            Err(error) => {
                return Err(error);
            },
            Ok(Look::Other) => {},
            Ok(Look::Contentless) => {
                return Ok(None);
            },
            Ok(Look::Contents) => {
                return match taken(wanted, content.bytes, limits) {
                    Ok(contents) => Ok(Some(contents)),
                    Err(error) => Err(error),
                };
            },
        }
        proof {
            i = i + 1;
        }
    }
    Ok(None)
}

/// Whether whoever looks for a member goes on after one.
pub fn flow(look: Look) -> (r: Flow)
    ensures
        r == if look == Look::Other {
            Flow::Continue
        } else {
            Flow::Stop
        },
{
    if look == Look::Other {
        Flow::Continue
    } else {
        Flow::Stop
    }
}

// ---------------------------------------------------------------------------------------------
// Laws

/// Whether some entry of the directories is a candidate.
pub open spec fn some_candidate(
    directories: Seq<CacheDirectory>,
    max: usize,
    package: Seq<char>,
    installed: Seq<char>,
) -> bool {
    exists|d: int, e: int|
        0 <= d < directories.len() && 0 <= e < looked_at(directories[d], max).len()
            && #[trigger] candidate_of(
            directories[d].path@,
            looked_at(directories[d], max)[e],
            package,
            installed,
        ) is Some
}

/// What one directory leaves is what came before or one of its own candidates.
proof fn lemma_best_in(
    best: Option<BaseCandidateView>,
    path: Seq<char>,
    entries: Seq<CacheEntry>,
    package: Seq<char>,
    installed: Seq<char>,
)
    ensures
        best_in(best, path, entries, package, installed) is Some <==> best is Some || exists|
            e: int,
        |
            0 <= e < entries.len() && #[trigger] candidate_of(
                path,
                entries[e],
                package,
                installed,
            ) is Some,
        best_in(best, path, entries, package, installed) matches Some(found) ==> best == Some(
            found,
        ) || is_older_build(found.file_name, package, installed),
    decreases entries.len(),
{
    if entries.len() > 0 {
        let fewer = entries.drop_last();
        lemma_best_in(best, path, fewer, package, installed);
        if exists|e: int|
            0 <= e < fewer.len() && #[trigger] candidate_of(
                path,
                fewer[e],
                package,
                installed,
            ) is Some {
            let e = choose|e: int|
                0 <= e < fewer.len() && #[trigger] candidate_of(
                    path,
                    fewer[e],
                    package,
                    installed,
                ) is Some;
            assert(candidate_of(path, entries[e], package, installed) is Some);
        }
        let last = entries.len() - 1;
        if candidate_of(path, entries.last(), package, installed) is Some {
            assert(candidate_of(path, entries[last], package, installed) is Some);
        }
        if exists|e: int|
            0 <= e < entries.len() && #[trigger] candidate_of(
                path,
                entries[e],
                package,
                installed,
            ) is Some {
            let e = choose|e: int|
                0 <= e < entries.len() && #[trigger] candidate_of(
                    path,
                    entries[e],
                    package,
                    installed,
                ) is Some;
            if e < last {
                assert(candidate_of(path, fewer[e], package, installed) is Some);
            }
        }
    }
}

/// A base is found exactly where some entry is an older build of the package, and what is found is
/// one: never the installed version, nor a newer one, nor another package.
pub proof fn a_base_is_an_older_build(
    directories: Seq<CacheDirectory>,
    max: usize,
    package: Seq<char>,
    installed: Seq<char>,
)
    ensures
        best_of(directories, max, package, installed) is Some <==> some_candidate(
            directories,
            max,
            package,
            installed,
        ),
        best_of(directories, max, package, installed) matches Some(found) ==> is_older_build(
            found.file_name,
            package,
            installed,
        ),
    decreases directories.len(),
{
    if directories.len() > 0 {
        let fewer = directories.drop_last();
        let last = directories.len() - 1;
        let entries = looked_at(directories.last(), max);
        a_base_is_an_older_build(fewer, max, package, installed);
        lemma_best_in(
            best_of(fewer, max, package, installed),
            directories.last().path@,
            entries,
            package,
            installed,
        );
        if some_candidate(fewer, max, package, installed) {
            let (d, e) = choose|d: int, e: int|
                0 <= d < fewer.len() && 0 <= e < looked_at(fewer[d], max).len()
                    && #[trigger] candidate_of(
                    fewer[d].path@,
                    looked_at(fewer[d], max)[e],
                    package,
                    installed,
                ) is Some;
            assert(candidate_of(
                directories[d].path@,
                looked_at(directories[d], max)[e],
                package,
                installed,
            ) is Some);
        }
        if exists|e: int|
            0 <= e < entries.len() && #[trigger] candidate_of(
                directories.last().path@,
                entries[e],
                package,
                installed,
            ) is Some {
            let e = choose|e: int|
                0 <= e < entries.len() && #[trigger] candidate_of(
                    directories.last().path@,
                    entries[e],
                    package,
                    installed,
                ) is Some;
            assert(candidate_of(
                directories[last].path@,
                looked_at(directories[last], max)[e],
                package,
                installed,
            ) is Some);
        }
        if some_candidate(directories, max, package, installed) {
            let (d, e) = choose|d: int, e: int|
                0 <= d < directories.len() && 0 <= e < looked_at(directories[d], max).len()
                    && #[trigger] candidate_of(
                    directories[d].path@,
                    looked_at(directories[d], max)[e],
                    package,
                    installed,
                ) is Some;
            if d < last {
                assert(candidate_of(
                    fewer[d].path@,
                    looked_at(fewer[d], max)[e],
                    package,
                    installed,
                ) is Some);
            } else {
                assert(candidate_of(directories.last().path@, entries[e], package, installed)
                    is Some);
            }
        }
    }
}

/// Whether "newer" orders versions: no version is newer than itself, and one that is not newer than
/// another is not newer than anything newer than that.
pub open spec fn newer_is_an_order() -> bool {
    &&& forall|a: Seq<char>| #[trigger] ordered(a, a) != Some(1i8)
    &&& forall|a: Seq<char>, b: Seq<char>, c: Seq<char>|
        #[trigger] ordered(a, b) != Some(1i8) && #[trigger] ordered(c, b) == Some(1i8)
            ==> ordered(a, c) != Some(1i8)
}

/// Whether a candidate is not newer than what was found.
pub open spec fn not_newer(candidate: BaseCandidateView, found: Option<BaseCandidateView>) -> bool {
    found matches Some(found) && ordered(
        candidate.file_name.version,
        found.file_name.version,
    ) != Some(1i8)
}

/// A directory leaves nothing that is older than a candidate it was given or holds.
proof fn lemma_best_in_is_newest(
    best: Option<BaseCandidateView>,
    path: Seq<char>,
    entries: Seq<CacheEntry>,
    package: Seq<char>,
    installed: Seq<char>,
    candidate: BaseCandidateView,
)
    requires
        newer_is_an_order(),
        not_newer(candidate, best) || exists|e: int|
            0 <= e < entries.len() && #[trigger] candidate_of(path, entries[e], package, installed)
                == Some(candidate),
    ensures
        not_newer(candidate, best_in(best, path, entries, package, installed)),
    decreases entries.len(),
{
    if entries.len() > 0 {
        let fewer = entries.drop_last();
        let last = candidate_of(path, entries.last(), package, installed);
        if last != Some(candidate) {
            if !not_newer(candidate, best) {
                let e = choose|e: int|
                    0 <= e < entries.len() && #[trigger] candidate_of(
                        path,
                        entries[e],
                        package,
                        installed,
                    ) == Some(candidate);
                assert(candidate_of(path, fewer[e], package, installed) == Some(candidate));
            }
            lemma_best_in_is_newest(best, path, fewer, package, installed, candidate);
        }
    }
}

/// Where "newer" orders versions, no entry that was looked at is a newer candidate than the base
/// that is found.
pub proof fn a_base_is_the_newest_older_build(
    directories: Seq<CacheDirectory>,
    max: usize,
    package: Seq<char>,
    installed: Seq<char>,
    d: int,
    e: int,
)
    requires
        0 <= d < directories.len(),
        0 <= e < looked_at(directories[d], max).len(),
        candidate_of(
            directories[d].path@,
            looked_at(directories[d], max)[e],
            package,
            installed,
        ) is Some,
    ensures
        newer_is_an_order() ==> not_newer(
            candidate_of(
                directories[d].path@,
                looked_at(directories[d], max)[e],
                package,
                installed,
            )->0,
            best_of(directories, max, package, installed),
        ),
    decreases directories.len(),
{
    if newer_is_an_order() {
        let fewer = directories.drop_last();
        let entries = looked_at(directories.last(), max);
        let candidate = candidate_of(
            directories[d].path@,
            looked_at(directories[d], max)[e],
            package,
            installed,
        )->0;
        if d < fewer.len() {
            a_base_is_the_newest_older_build(fewer, max, package, installed, d, e);
        } else {
            assert(candidate_of(directories.last().path@, entries[e], package, installed) == Some(
                candidate,
            ));
        }
        lemma_best_in_is_newest(
            best_of(fewer, max, package, installed),
            directories.last().path@,
            entries,
            package,
            installed,
            candidate,
        );
    }
}

} // verus!
