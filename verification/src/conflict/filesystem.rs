//! Every package of a transaction against the filesystem.
//!
//! What is on the filesystem is a table of answers: what each path is, and what each directory
//! holds. The caller looks, and the rules here say what it means.

use vstd::prelude::*;

use crate::conflict::decision;
use crate::conflict::decision::{FilesystemContext, FilesystemContextView, Verdict, VerdictView};
use crate::conflict::filelist;
use crate::conflict::filelist::FileList;
use crate::conflict::{
    Blocker, BlockerView, Check, FileConflict, FileConflictView, Overwrite, Released, Target, WalkLimits,
};
use crate::extract::decision::Existing;
use crate::order;
use crate::order::Ordered;
use crate::owner;
use crate::owner::{Owners, PackageView};
use crate::table::Table;
use crate::text;

verus! {

broadcast use {crate::text::group_lists, crate::conflict::lemma_conflicts_push};

/// What a path is.
#[derive(Clone, Copy, Debug, Eq, PartialEq, Structural)]
pub struct Probe {
    /// What is there, without following a symlink.
    pub existing: Existing,
    /// Whether it is a directory once symlinks are followed.
    pub resolves_to_directory: bool,
}

/// One entry of a directory.
#[derive(Clone, Debug, Eq, PartialEq)]
pub struct Listed {
    /// Its name.
    pub name: String,
    /// Whether it is a directory, without following a symlink.
    pub is_directory: bool,
}

/// What is on the filesystem, as far as it was looked at.
///
/// A path that was not found is absent, and a directory that could not be read has no listing.
#[derive(Debug)]
pub struct Filesystem {
    probes: Table<Probe>,
    listings: Table<Vec<Listed>>,
}

/// What a listing says.
pub open spec fn entries_of(listing: Seq<Listed>) -> Seq<(Seq<char>, bool)> {
    Seq::new(listing.len(), |i: int| (listing[i].name@, listing[i].is_directory))
}

impl Filesystem {
    /// What a path is.
    pub closed spec fn probe(self, path: Seq<char>) -> Probe {
        match self.probes.spec_get(path) {
            Some(probe) => probe,
            None => Probe { existing: Existing::Absent, resolves_to_directory: false },
        }
    }

    /// What the directory `dir`, spelled with its trailing `/`, holds.
    pub closed spec fn listing(self, dir: Seq<char>) -> Option<Seq<(Seq<char>, bool)>> {
        match self.listings.spec_get(dir) {
            Some(listing) => Some(entries_of(listing@)),
            None => None,
        }
    }

    /// An empty filesystem.
    pub fn new() -> (r: Self)
        ensures
            forall|path: Seq<char>|
                (#[trigger] r.probe(path)) == (Probe {
                    existing: Existing::Absent,
                    resolves_to_directory: false,
                }),
            forall|dir: Seq<char>| (#[trigger] r.listing(dir)) is None,
    {
        Filesystem { probes: Table::new(), listings: Table::new() }
    }

    /// Records what a path is.
    pub fn record(&mut self, path: String, probe: Probe)
        ensures
            forall|p: Seq<char>|
                (#[trigger] final(self).probe(p)) == if p == path@ {
                    probe
                } else {
                    old(self).probe(p)
                },
            forall|dir: Seq<char>|
                (#[trigger] final(self).listing(dir)) == old(self).listing(dir),
    {
        self.probes.insert(path, probe);
    }

    /// Records what the directory `dir`, spelled with its trailing `/`, holds.
    pub fn list(&mut self, dir: String, entries: Vec<Listed>)
        ensures
            forall|p: Seq<char>| (#[trigger] final(self).probe(p)) == old(self).probe(p),
            forall|d: Seq<char>|
                (#[trigger] final(self).listing(d)) == if d == dir@ {
                    Some(entries_of(entries@))
                } else {
                    old(self).listing(d)
                },
    {
        self.listings.insert(dir, entries);
    }

    /// What a path is.
    pub fn probe_existing(&self, path: &str) -> (r: Probe)
        ensures
            r == self.probe(path@),
    {
        match self.probes.get(path) {
            Some(probe) => *probe,
            None => Probe { existing: Existing::Absent, resolves_to_directory: false },
        }
    }

    /// What the directory `dir` holds.
    fn read_directory(&self, dir: &str) -> (r: Option<&Vec<Listed>>)
        ensures
            match r {
                Some(listing) => self.listing(dir@) == Some(entries_of(listing@)),
                None => self.listing(dir@) is None,
            },
    {
        self.listings.get(dir)
    }
}

// ---------------------------------------------------------------------------------------------
// A directory that goes away

/// Whether one of `lists` holds `path`.
pub open spec fn any_holds(lists: Seq<Seq<Seq<char>>>, path: Seq<char>) -> bool {
    exists|i: int| 0 <= i < lists.len() && (#[trigger] lists[i]).contains(path)
}

/// The path of an entry of `dir`.
pub open spec fn child(dir: Seq<char>, entry: (Seq<char>, bool)) -> Seq<char> {
    if entry.1 {
        dir + entry.0 + "/"@
    } else {
        dir + entry.0
    }
}

/// What is left of `budget` once everything below `dir` was found in `lists`.
///
/// `None` where something is not in a list, where a directory cannot be read or is too deep, or
/// where the budget runs out.
pub open spec fn walk(
    fs: Filesystem,
    lists: Seq<Seq<Seq<char>>>,
    dir: Seq<char>,
    depth: nat,
    budget: nat,
) -> Option<nat>
    decreases depth, 1nat, 0nat,
{
    if depth == 0 {
        None
    } else {
        match fs.listing(dir) {
            Some(entries) => walk_entries(fs, lists, dir, entries, depth, budget),
            None => None,
        }
    }
}

/// [`walk`], over the entries of one directory.
pub open spec fn walk_entries(
    fs: Filesystem,
    lists: Seq<Seq<Seq<char>>>,
    dir: Seq<char>,
    entries: Seq<(Seq<char>, bool)>,
    depth: nat,
    budget: nat,
) -> Option<nat>
    decreases depth, 0nat, entries.len(),
{
    if entries.len() == 0 {
        Some(budget)
    } else if depth == 0 || budget == 0 || !any_holds(lists, child(dir, entries[0])) {
        None
    } else {
        let left = if entries[0].1 {
            walk(fs, lists, child(dir, entries[0]), (depth - 1) as nat, (budget - 1) as nat)
        } else {
            Some((budget - 1) as nat)
        };
        match left {
            Some(left) => walk_entries(fs, lists, dir, entries.skip(1), depth, left),
            None => None,
        }
    }
}

/// The views of a list of file lists.
pub open spec fn list_views(lists: Seq<&FileList>) -> Seq<Seq<Seq<char>>> {
    Seq::new(lists.len(), |i: int| lists[i]@)
}

/// Whether one of `lists` holds `path`.
fn held_by_any(lists: &Vec<&FileList>, path: &str) -> (r: bool)
    ensures
        r == any_holds(list_views(lists@), path@),
{
    let mut i: usize = 0;
    while i < lists.len()
        invariant
            i <= lists.len(),
            forall|k: int| 0 <= k < i ==> !(#[trigger] lists@[k])@.contains(path@),
        decreases lists.len() - i,
    {
        if lists[i].contains(path) {
            assert(list_views(lists@)[i as int].contains(path@));
            return true;
        }
        i += 1;
    }
    proof {
        assert forall|k: int| 0 <= k < list_views(lists@).len() implies !(
        #[trigger] list_views(lists@)[k]).contains(path@) by {
            assert(!lists@[k]@.contains(path@));
        }
    }
    false
}

/// Whether everything below `dir` is in one of `lists`, bounded in depth and in entries.
fn everything_below_is_owned(
    fs: &Filesystem,
    dir: &str,
    lists: &Vec<&FileList>,
    depth_left: u32,
    budget: &mut usize,
) -> (r: bool)
    ensures
        match walk(*fs, list_views(lists@), dir@, depth_left as nat, *old(budget) as nat) {
            Some(left) => r && *final(budget) == left,
            None => !r,
        },
    decreases depth_left,
{
    if depth_left == 0 {
        return false;
    }
    let entries = match fs.read_directory(dir) {
        Some(entries) => entries,
        None => {
            return false;
        },
    };
    let ghost views = entries_of(entries@);
    let ghost owned = list_views(lists@);
    let ghost whole = walk(*fs, owned, dir@, depth_left as nat, *budget as nat);
    let mut i: usize = 0;
    assert(views.skip(0) =~= views);
    while i < entries.len()
        invariant
            i <= entries.len(),
            depth_left > 0,
            views == entries_of(entries@),
            owned == list_views(lists@),
            whole == walk(*fs, owned, dir@, depth_left as nat, *old(budget) as nat),
            whole == walk_entries(
                *fs,
                owned,
                dir@,
                views.skip(i as int),
                depth_left as nat,
                *budget as nat,
            ),
        decreases entries.len() - i,
    {
        let entry = &entries[i];
        proof {
            assert(views.skip(i as int)[0] == (entry.name@, entry.is_directory));
            assert(views.skip(i as int).skip(1) =~= views.skip(i + 1));
        }
        if *budget == 0 {
            return false;
        }
        *budget = *budget - 1;
        let mut path = dir.to_owned().concat(entry.name.as_str());
        if entry.is_directory {
            path.push_str("/");
        }
        assert(path@ == child(dir@, (entry.name@, entry.is_directory)));
        if !held_by_any(lists, path.as_str()) {
            return false;
        }
        if entry.is_directory && !everything_below_is_owned(
            fs,
            path.as_str(),
            lists,
            depth_left - 1,
            budget,
        ) {
            return false;
        }
        i += 1;
    }
    true
}

/// The file lists of the packages named.
pub open spec fn lists_of(packages: Seq<PackageView>, names: Seq<Seq<char>>) -> Seq<Seq<Seq<char>>>
    decreases names.len(),
{
    if names.len() == 0 {
        Seq::empty()
    } else {
        let rest = lists_of(packages, names.drop_last());
        match owner::files_of(packages, names.last()) {
            Some(files) => rest.push(files),
            None => rest,
        }
    }
}

/// Whether everything under the directory `dir` belongs to a package this transaction is getting
/// rid of.
///
/// The directory must have owners, each of them the package being installed or a package being
/// removed, and everything inside must be theirs too.
pub open spec fn vacated(
    fs: Filesystem,
    packages: Seq<PackageView>,
    dir: Seq<char>,
    target_name: Seq<char>,
    removals: Seq<Seq<char>>,
    limits: WalkLimits,
) -> bool {
    let claimants = owner::owners_of(packages, dir + "/"@);
    &&& claimants.len() > 0
    &&& forall|i: int|
        0 <= i < claimants.len() ==> removals.contains(#[trigger] claimants[i]) || claimants[i]
            == target_name
    &&& walk(
        fs,
        lists_of(packages, claimants),
        dir + "/"@,
        limits.max_depth as nat,
        limits.max_entries as nat,
    ) is Some
}

/// Whether `name` is one of `names`.
pub fn named(names: &Vec<String>, name: &str) -> (r: bool)
    ensures
        r == text::texts(names@).contains(name@),
{
    let mut i: usize = 0;
    while i < names.len()
        invariant
            i <= names.len(),
            forall|k: int| 0 <= k < i ==> (#[trigger] names@[k])@ != name@,
        decreases names.len() - i,
    {
        if text::same(names[i].as_str(), name) {
            assert(text::texts(names@)[i as int] == name@);
            return true;
        }
        i += 1;
    }
    proof {
        if text::texts(names@).contains(name@) {
            let k = choose|k: int|
                0 <= k < text::texts(names@).len() && text::texts(names@)[k] == name@;
            assert(names@[k]@ == name@);
        }
    }
    false
}

/// The file lists that decide whether `dir` goes away with this transaction, or `None` where
/// somebody else has a claim to it.
pub fn vacating_lists<'a>(
    owners: &'a Owners,
    dir: &str,
    target_name: &str,
    removals: &Vec<String>,
) -> (r: Option<Vec<&'a FileList>>)
    ensures
        ({
            let claimants = owner::owners_of(owners@, dir@ + "/"@);
            let all_go = claimants.len() > 0 && forall|i: int|
                0 <= i < claimants.len() ==> text::texts(removals@).contains(
                    #[trigger] claimants[i],
                ) || claimants[i] == target_name@;
            match r {
                Some(lists) => all_go && list_views(lists@) == lists_of(owners@, claimants),
                None => !all_go,
            }
        }),
{
    let with_slash = dir.to_owned().concat("/");
    let claimants = owners.owners_of(with_slash.as_str());
    let ghost views = text::texts(claimants@);
    if claimants.len() == 0 {
        return None;
    }
    let mut lists: Vec<&FileList> = Vec::new();
    let mut i: usize = 0;
    assert(views.take(0) =~= Seq::<Seq<char>>::empty());
    assert(list_views(lists@) =~= Seq::<Seq<Seq<char>>>::empty());
    while i < claimants.len()
        invariant
            i <= claimants.len(),
            views == text::texts(claimants@),
            views == owner::owners_of(owners@, dir@ + "/"@),
            forall|k: int|
                0 <= k < i ==> text::texts(removals@).contains(#[trigger] views[k]) || views[k]
                    == target_name@,
            list_views(lists@) == lists_of(owners@, views.take(i as int)),
        decreases claimants.len() - i,
    {
        let name = claimants[i].as_str();
        assert(views[i as int] == name@);
        if !named(removals, name) && !text::same(name, target_name) {
            return None;
        }
        proof {
            assert(views.take(i + 1).drop_last() =~= views.take(i as int));
            assert(views.take(i + 1).last() == name@);
        }
        if let Some(files) = owners.files_of(name) {
            let ghost was = lists@;
            lists.push(files);
            assert(list_views(lists@) =~= list_views(was).push(files@));
        }
        i += 1;
    }
    assert(views.take(views.len() as int) =~= views);
    Some(lists)
}

/// Whether everything under the directory `dir` belongs to a package this transaction is getting
/// rid of.
fn directory_is_vacated(
    fs: &Filesystem,
    owners: &Owners,
    dir: &str,
    target_name: &str,
    removals: &Vec<String>,
    limits: &WalkLimits,
) -> (r: bool)
    ensures
        r == vacated(*fs, owners@, dir@, target_name@, text::texts(removals@), *limits),
{
    match vacating_lists(owners, dir, target_name, removals) {
        Some(lists) => {
            let with_slash = dir.to_owned().concat("/");
            let mut budget: usize = limits.max_entries;
            everything_below_is_owned(fs, with_slash.as_str(), &lists, limits.max_depth, &mut budget)
        },
        None => false,
    }
}

// ---------------------------------------------------------------------------------------------
// A path that changes hands

/// Whether the installed version of target `i` owns `path`.
pub open spec fn gives_up(
    targets: Seq<Target>,
    packages: Seq<PackageView>,
    i: int,
    path: Seq<char>,
) -> bool {
    match owner::files_of(packages, targets[i].name@) {
        Some(files) => files.contains(path),
        None => false,
    }
}

/// The first target from `i` on, other than those named `name`, whose installed version owns
/// `path`.
pub open spec fn previous_owner(
    targets: Seq<Target>,
    packages: Seq<PackageView>,
    path: Seq<char>,
    name: Seq<char>,
    i: int,
) -> Option<Seq<char>>
    decreases targets.len() - i,
{
    if i < 0 || i >= targets.len() {
        None
    } else if targets[i].name@ != name && gives_up(targets, packages, i, path) {
        Some(targets[i].name@)
    } else {
        previous_owner(targets, packages, path, name, i + 1)
    }
}

/// Which targets' installed versions own one path: enough of them to say who gives it up.
#[derive(Clone, Copy, Debug)]
pub struct Handover {
    /// The lowest target whose installed version owns the path.
    pub first: usize,
    /// The lowest target after `first` that owns the path and has another name.
    pub runner_up: Option<usize>,
}

impl Handover {
    /// The handover of `path`.
    pub open spec fn of(
        self,
        targets: Seq<Target>,
        packages: Seq<PackageView>,
        path: Seq<char>,
    ) -> bool {
        &&& self.first < targets.len()
        &&& gives_up(targets, packages, self.first as int, path)
        &&& forall|i: int| 0 <= i < self.first ==> !gives_up(targets, packages, i, path)
        &&& match self.runner_up {
            Some(r) => {
                &&& self.first < r < targets.len()
                &&& gives_up(targets, packages, r as int, path)
                &&& targets[r as int].name@ != targets[self.first as int].name@
                &&& forall|i: int|
                    self.first < i < r && #[trigger] gives_up(targets, packages, i, path)
                        ==> targets[i].name@ == targets[self.first as int].name@
            },
            None => forall|i: int|
                self.first < i < targets.len() && #[trigger] gives_up(targets, packages, i, path)
                    ==> targets[i].name@ == targets[self.first as int].name@,
        }
    }

    /// The first owner whose name is not `name`, in target order.
    pub open spec fn spec_other_than(self, name: Seq<char>, targets: Seq<Target>) -> Option<
        Seq<char>,
    > {
        if targets[self.first as int].name@ != name {
            Some(targets[self.first as int].name@)
        } else {
            match self.runner_up {
                Some(r) => Some(targets[r as int].name@),
                None => None,
            }
        }
    }

    /// The first owner whose name is not `name`, in target order.
    pub fn other_than<'a>(&self, name: &str, targets: &'a Vec<Target>) -> (r: Option<&'a str>)
        requires
            self.first < targets.len(),
            self.runner_up is Some ==> self.runner_up->0 < targets.len(),
        ensures
            text::maybe_str(r) == self.spec_other_than(name@, targets@),
    {
        if !text::same(targets[self.first].name.as_str(), name) {
            return Some(targets[self.first].name.as_str());
        }
        match self.runner_up {
            Some(r) => Some(targets[r].name.as_str()),
            None => None,
        }
    }
}

/// No target between `i` and `j` gives the path up to `name`.
proof fn lemma_previous_owner_gap(
    targets: Seq<Target>,
    packages: Seq<PackageView>,
    path: Seq<char>,
    name: Seq<char>,
    i: int,
    j: int,
)
    requires
        0 <= i <= j <= targets.len(),
        forall|k: int|
            i <= k < j && #[trigger] gives_up(targets, packages, k, path) ==> targets[k].name@
                == name,
    ensures
        previous_owner(targets, packages, path, name, i) == previous_owner(
            targets,
            packages,
            path,
            name,
            j,
        ),
    decreases j - i,
{
    if i < j {
        assert(gives_up(targets, packages, i, path) ==> targets[i].name@ == name);
        lemma_previous_owner_gap(targets, packages, path, name, i + 1, j);
    }
}

/// Two entries are enough: a handover names the owner that a search of every target finds.
pub proof fn a_handover_finds_the_previous_owner(
    handover: Handover,
    targets: Seq<Target>,
    packages: Seq<PackageView>,
    path: Seq<char>,
    name: Seq<char>,
)
    requires
        handover.of(targets, packages, path),
    ensures
        handover.spec_other_than(name, targets) == previous_owner(targets, packages, path, name, 0),
{
    let first = handover.first as int;
    lemma_previous_owner_gap(targets, packages, path, name, 0, first);
    if targets[first].name@ == name {
        match handover.runner_up {
            Some(r) => {
                lemma_previous_owner_gap(targets, packages, path, name, first, r as int);
            },
            None => {
                lemma_previous_owner_gap(
                    targets,
                    packages,
                    path,
                    name,
                    first,
                    targets.len() as int,
                );
            },
        }
    }
}

/// One path that the installed version of one target owns.
#[derive(Clone, Copy, Debug)]
struct Claim<'a> {
    path: &'a str,
    target: usize,
}

impl<'a> Ordered for Claim<'a> {
    closed spec fn precedes(self, other: Self) -> bool {
        text::text_lt(self.path@, other.path@) || (self.path@ == other.path@ && self.target
            < other.target)
    }

    proof fn asymmetric(a: Self, b: Self) {
        text::lemma_text_lt_total(a.path@, b.path@);
    }

    proof fn transitive(a: Self, b: Self, c: Self) {
        text::lemma_text_lt_total(a.path@, b.path@);
        text::lemma_text_lt_total(b.path@, c.path@);
        text::lemma_text_lt_total(a.path@, c.path@);
        if text::text_lt(a.path@, b.path@) && text::text_lt(b.path@, c.path@) {
            text::lemma_text_lt_transitive(a.path@, b.path@, c.path@);
        }
    }

    fn before(&self, other: &Self) -> (r: bool) {
        if text::less(self.path, other.path) {
            true
        } else if text::same(self.path, other.path) {
            self.target < other.target
        } else {
            false
        }
    }
}

/// A claim is true of the targets before `n`.
spec fn claim_holds(
    targets: Seq<Target>,
    packages: Seq<PackageView>,
    claim: Claim,
    n: int,
) -> bool {
    claim.target < n && gives_up(targets, packages, claim.target as int, claim.path@)
}

/// Some claim is that target `i` owns `path`.
#[verifier::opaque]
spec fn claimed(claims: Seq<Claim>, i: int, path: Seq<char>) -> bool {
    exists|k: int|
        0 <= k < claims.len() && (#[trigger] claims[k]).target == i && claims[k].path@ == path
}

/// The claims are those of the targets before `n`, and of the first `m` paths of target `n`.
spec fn claims_cover(
    targets: Seq<Target>,
    packages: Seq<PackageView>,
    claims: Seq<Claim>,
    n: int,
) -> bool {
    &&& forall|k: int|
        0 <= k < claims.len() ==> claim_holds(targets, packages, #[trigger] claims[k], n)
    &&& forall|i: int, path: Seq<char>|
        0 <= i < n && #[trigger] gives_up(targets, packages, i, path) ==> claimed(claims, i, path)
}

/// A longer list of claims claims no less.
proof fn lemma_claimed_push(claims: Seq<Claim>, claim: Claim, i: int, path: Seq<char>)
    ensures
        claimed(claims, i, path) ==> claimed(claims.push(claim), i, path),
        claimed(claims.push(claim), claim.target as int, claim.path@),
{
    reveal(claimed);
    let now = claims.push(claim);
    assert(now[claims.len() as int] == claim);
    if claimed(claims, i, path) {
        let k = choose|k: int|
            0 <= k < claims.len() && (#[trigger] claims[k]).target == i && claims[k].path@ == path;
        assert(now[k] == claims[k]);
    }
}

/// Every path that the installed version of a target owns.
fn claims_of<'a>(owners: &'a Owners, targets: &Vec<Target>) -> (r: Vec<Claim<'a>>)
    ensures
        claims_cover(targets@, owners@, r@, targets.len() as int),
{
    let mut out: Vec<Claim<'a>> = Vec::new();
    let ghost packages = owners@;
    let mut t: usize = 0;
    while t < targets.len()
        invariant
            t <= targets.len(),
            packages == owners@,
            claims_cover(targets@, packages, out@, t as int),
        decreases targets.len() - t,
    {
        if let Some(files) = owners.files_of(targets[t].name.as_str()) {
            let mut i: usize = 0;
            proof {
                assert forall|k: int| 0 <= k < out.len() implies claim_holds(
                    targets@,
                    packages,
                    #[trigger] out@[k],
                    t + 1,
                ) by {
                    assert(claim_holds(targets@, packages, out@[k], t as int));
                }
            }
            while i < files.len()
                invariant
                    i <= files@.len(),
                    t < targets.len(),
                    packages == owners@,
                    owner::files_of(packages, targets@[t as int].name@) == Some(files@),
                    forall|k: int|
                        0 <= k < out.len() ==> claim_holds(
                            targets@,
                            packages,
                            #[trigger] out@[k],
                            t + 1,
                        ),
                    forall|j: int, path: Seq<char>|
                        0 <= j < t && #[trigger] gives_up(targets@, packages, j, path) ==> claimed(
                            out@,
                            j,
                            path,
                        ),
                    forall|k: int| 0 <= k < i ==> claimed(out@, t as int, #[trigger] files@[k]),
                decreases files@.len() - i,
            {
                let claim = Claim { path: files.get(i), target: t };
                let ghost was = out@;
                out.push(claim);
                proof {
                    assert(files@.contains(files@[i as int]));
                    assert forall|j: int, path: Seq<char>|
                        0 <= j < t && #[trigger] gives_up(
                            targets@,
                            packages,
                            j,
                            path,
                        ) implies claimed(out@, j, path) by {
                        lemma_claimed_push(was, claim, j, path);
                    }
                    assert forall|k: int| 0 <= k < i + 1 implies claimed(
                        out@,
                        t as int,
                        #[trigger] files@[k],
                    ) by {
                        lemma_claimed_push(was, claim, t as int, files@[k]);
                    }
                }
                i += 1;
            }
            proof {
                assert forall|j: int, path: Seq<char>|
                    0 <= j < t + 1 && #[trigger] gives_up(
                        targets@,
                        packages,
                        j,
                        path,
                    ) implies claimed(out@, j, path) by {
                    if j == t {
                        let k = choose|k: int| 0 <= k < files@.len() && files@[k] == path;
                        assert(claimed(out@, t as int, files@[k]));
                    }
                }
            }
        } else {
            proof {
                assert forall|k: int| 0 <= k < out.len() implies claim_holds(
                    targets@,
                    packages,
                    #[trigger] out@[k],
                    t + 1,
                ) by {
                    assert(claim_holds(targets@, packages, out@[k], t as int));
                }
                assert forall|j: int, path: Seq<char>|
                    0 <= j < t + 1 && #[trigger] gives_up(
                        targets@,
                        packages,
                        j,
                        path,
                    ) implies claimed(out@, j, path) by {
                    if j == t {
                        assert(!gives_up(targets@, packages, t as int, path));
                    }
                }
            }
        }
        t += 1;
    }
    out
}

/// One path and its handover.
#[derive(Clone, Copy, Debug)]
pub struct Held<'a> {
    /// The path, as the installed packages spell it.
    pub path: &'a str,
    /// Who owns it.
    pub handover: Handover,
}

/// The index holds the handover of every path that some target's installed version owns.
pub open spec fn handovers_of(
    index: Seq<Held>,
    targets: Seq<Target>,
    packages: Seq<PackageView>,
) -> bool {
    &&& forall|a: int, b: int|
        0 <= a < b < index.len() ==> text::text_lt(
            (#[trigger] index[a]).path@,
            (#[trigger] index[b]).path@,
        )
    &&& forall|k: int|
        0 <= k < index.len() ==> (#[trigger] index[k]).handover.of(
            targets,
            packages,
            index[k].path@,
        )
    &&& forall|i: int, path: Seq<char>|
        0 <= i < targets.len() && #[trigger] gives_up(targets, packages, i, path) ==> lists_path(
            index,
            path,
        )
}

/// Some entry of the index is for `path`.
pub open spec fn lists_path(index: Seq<Held>, path: Seq<char>) -> bool {
    exists|k: int| 0 <= k < index.len() && (#[trigger] index[k]).path@ == path
}

/// `lo..hi` is one group: the claims to one path, and all of them.
spec fn claim_group(claims: Seq<Claim>, lo: int, hi: int) -> bool {
    &&& 0 <= lo < hi <= claims.len()
    &&& forall|c: int|
        0 <= c < claims.len() ==> ((#[trigger] claims[c]).path@ == claims[lo].path@ <==> lo <= c
            < hi)
}

/// Where the group that starts at `lo` ends.
fn claim_group_end<'a>(claims: &Vec<Claim<'a>>, lo: usize) -> (hi: usize)
    requires
        order::sorted(claims@),
        lo < claims.len(),
        lo > 0 ==> claims@[lo - 1].path@ != claims@[lo as int].path@,
    ensures
        claim_group(claims@, lo as int, hi as int),
        hi < claims.len() ==> claims@[hi - 1].path@ != claims@[hi as int].path@,
{
    let mut hi: usize = lo + 1;
    while hi < claims.len() && text::same(claims[hi].path, claims[lo].path)
        invariant
            lo < hi <= claims.len(),
            forall|c: int| lo <= c < hi ==> (#[trigger] claims@[c]).path@ == claims@[lo as int].path@,
        decreases claims.len() - hi,
    {
        hi += 1;
    }
    proof {
        let path = claims@[lo as int].path@;
        assert forall|c: int| 0 <= c < claims.len() implies ((#[trigger] claims@[c]).path@ == path
            <==> lo <= c < hi) by {
            if c < lo {
                assert(!claims@[lo as int].precedes(claims@[lo - 1]));
                text::lemma_text_lt_total(claims@[lo as int].path@, claims@[lo - 1].path@);
                if c < lo - 1 {
                    assert(!claims@[lo - 1].precedes(claims@[c]));
                    text::lemma_text_lt_total(claims@[lo - 1].path@, claims@[c].path@);
                }
                text::lemma_text_lt_total(path, claims@[lo - 1].path@);
            } else if c >= hi {
                assert(!claims@[hi as int].precedes(claims@[lo as int]));
                text::lemma_text_lt_total(claims@[hi as int].path@, path);
                if c > hi {
                    assert(!claims@[c].precedes(claims@[hi as int]));
                    text::lemma_text_lt_total(claims@[c].path@, claims@[hi as int].path@);
                }
            }
        }
    }
    hi
}

/// A target gives a group's path up exactly where the group holds its claim.
proof fn lemma_group_claims(
    targets: Seq<Target>,
    packages: Seq<PackageView>,
    claims: Seq<Claim>,
    lo: int,
    hi: int,
    i: int,
) -> (k: int)
    requires
        claims_cover(targets, packages, claims, targets.len() as int),
        claim_group(claims, lo, hi),
        0 <= i < targets.len(),
        gives_up(targets, packages, i, claims[lo].path@),
    ensures
        lo <= k < hi,
        claims[k].target == i,
{
    reveal(claimed);
    assert(claimed(claims, i, claims[lo].path@));
    let k = choose|k: int|
        0 <= k < claims.len() && (#[trigger] claims[k]).target == i && claims[k].path@
            == claims[lo].path@;
    k
}

/// The claims to one path are in the order of the targets.
proof fn lemma_group_order(claims: Seq<Claim>, lo: int, hi: int, a: int, b: int)
    requires
        order::sorted(claims),
        claim_group(claims, lo, hi),
        lo <= a <= b < hi,
    ensures
        claims[a].target <= claims[b].target,
{
    assert(claims[a].path@ == claims[lo].path@);
    assert(claims[b].path@ == claims[lo].path@);
    text::lemma_text_lt_total(claims[a].path@, claims[b].path@);
    if a < b {
        assert(!claims[b].precedes(claims[a]));
    }
}

/// The handover of the path that one group of claims is for.
fn group_handover<'a>(
    targets: &Vec<Target>,
    owners: &Owners,
    claims: &Vec<Claim<'a>>,
    lo: usize,
    hi: usize,
) -> (r: Handover)
    requires
        claims_cover(targets@, owners@, claims@, targets.len() as int),
        order::sorted(claims@),
        claim_group(claims@, lo as int, hi as int),
    ensures
        r.of(targets@, owners@, claims@[lo as int].path@),
{
    let ghost packages = owners@;
    let ghost path = claims@[lo as int].path@;
    let first = claims[lo].target;
    assert(claim_holds(targets@, packages, claims@[lo as int], targets.len() as int));
    proof {
        assert forall|i: int| 0 <= i < first implies !gives_up(targets@, packages, i, path) by {
            if gives_up(targets@, packages, i, path) {
                let k = lemma_group_claims(
                    targets@,
                    packages,
                    claims@,
                    lo as int,
                    hi as int,
                    i,
                );
                lemma_group_order(claims@, lo as int, hi as int, lo as int, k);
            }
        }
    }
    let mut c: usize = lo;
    while c < hi
        invariant
            lo <= c <= hi <= claims.len(),
            packages == owners@,
            claims_cover(targets@, packages, claims@, targets.len() as int),
            order::sorted(claims@),
            claim_group(claims@, lo as int, hi as int),
            first == claims@[lo as int].target,
            first < targets.len(),
            path == claims@[lo as int].path@,
            gives_up(targets@, packages, first as int, path),
            forall|i: int| 0 <= i < first ==> !gives_up(targets@, packages, i, path),
            forall|k: int|
                lo <= k < c ==> targets@[(#[trigger] claims@[k]).target as int].name@
                    == targets@[first as int].name@,
        decreases hi - c,
    {
        let t = claims[c].target;
        proof {
            assert(claim_holds(targets@, packages, claims@[c as int], targets.len() as int));
            assert(claims@[c as int].path@ == path);
            lemma_group_order(claims@, lo as int, hi as int, lo as int, c as int);
        }
        if !text::same(targets[t].name.as_str(), targets[first].name.as_str()) {
            let r = Handover { first, runner_up: Some(t) };
            proof {
                assert(t != first);
                assert forall|i: int|
                    first < i < t && #[trigger] gives_up(
                        targets@,
                        packages,
                        i,
                        path,
                    ) implies targets@[i].name@ == targets@[first as int].name@ by {
                    let k = lemma_group_claims(
                        targets@,
                        packages,
                        claims@,
                        lo as int,
                        hi as int,
                        i,
                    );
                    if k >= c {
                        lemma_group_order(claims@, lo as int, hi as int, c as int, k);
                    }
                    assert(targets@[claims@[k].target as int].name@ == targets@[first as int].name@);
                }
            }
            return r;
        }
        c += 1;
    }
    proof {
        assert forall|i: int|
            first < i < targets.len() && #[trigger] gives_up(
                targets@,
                packages,
                i,
                path,
            ) implies targets@[i].name@ == targets@[first as int].name@ by {
            let k = lemma_group_claims(targets@, packages, claims@, lo as int, hi as int, i);
            assert(targets@[claims@[k].target as int].name@ == targets@[first as int].name@);
        }
    }
    Handover { first, runner_up: None }
}

/// Indexes the paths that the targets' installed versions own, once for the whole check.
pub fn handovers<'a>(owners: &'a Owners, targets: &Vec<Target>) -> (index: Vec<Held<'a>>)
    ensures
        handovers_of(index@, targets@, owners@),
{
    let ghost packages = owners@;
    let unsorted = claims_of(owners, targets);
    let claims = order::sort(unsorted);
    proof {
        broadcast use vstd::seq_lib::group_to_multiset_ensures;

        assert forall|k: int| 0 <= k < claims.len() implies claim_holds(
            targets@,
            packages,
            #[trigger] claims@[k],
            targets.len() as int,
        ) by {
            assert(claims@.to_multiset().count(claims@[k]) > 0);
            assert(unsorted@.contains(claims@[k]));
            let j = choose|j: int| 0 <= j < unsorted.len() && unsorted@[j] == claims@[k];
            assert(claim_holds(targets@, packages, unsorted@[j], targets.len() as int));
        }
        assert forall|i: int, path: Seq<char>|
            0 <= i < targets.len() && #[trigger] gives_up(
                targets@,
                packages,
                i,
                path,
            ) implies claimed(claims@, i, path) by {
            reveal(claimed);
            assert(claimed(unsorted@, i, path));
            let j = choose|j: int|
                0 <= j < unsorted.len() && (#[trigger] unsorted@[j]).target == i
                    && unsorted@[j].path@ == path;
            assert(unsorted@.to_multiset().count(unsorted@[j]) > 0);
            assert(claims@.contains(unsorted@[j]));
            let k = choose|k: int| 0 <= k < claims.len() && claims@[k] == unsorted@[j];
            assert(claims@[k].target == i);
        }
    }
    let mut index: Vec<Held<'a>> = Vec::new();
    let mut lo: usize = 0;
    while lo < claims.len()
        invariant
            lo <= claims.len(),
            packages == owners@,
            claims_cover(targets@, packages, claims@, targets.len() as int),
            order::sorted(claims@),
            0 < lo < claims.len() ==> claims@[lo - 1].path@ != claims@[lo as int].path@,
            lo > 0 ==> index.len() > 0 && index@.last().path@ == claims@[lo - 1].path@,
            lo == 0 ==> index.len() == 0,
            forall|a: int, b: int|
                0 <= a < b < index.len() ==> text::text_lt(
                    (#[trigger] index@[a]).path@,
                    (#[trigger] index@[b]).path@,
                ),
            forall|k: int|
                0 <= k < index.len() ==> (#[trigger] index@[k]).handover.of(
                    targets@,
                    packages,
                    index@[k].path@,
                ),
            forall|c: int| 0 <= c < lo ==> lists_path(index@, (#[trigger] claims@[c]).path@),
        decreases claims.len() - lo,
    {
        let hi = claim_group_end(&claims, lo);
        let handover = group_handover(targets, owners, &claims, lo, hi);
        let held = Held { path: claims[lo].path, handover };
        let ghost was = index@;
        index.push(held);
        proof {
            if lo > 0 {
                assert(!claims@[lo as int].precedes(claims@[lo - 1]));
                text::lemma_text_lt_total(claims@[lo - 1].path@, claims@[lo as int].path@);
            }
            assert forall|a: int, b: int| 0 <= a < b < index.len() implies text::text_lt(
                (#[trigger] index@[a]).path@,
                (#[trigger] index@[b]).path@,
            ) by {
                if b == was.len() {
                    let last = was.len() - 1;
                    if a < last {
                        assert(text::text_lt(was[a].path@, was[last].path@));
                        text::lemma_text_lt_transitive(
                            was[a].path@,
                            was[last].path@,
                            held.path@,
                        );
                    }
                } else {
                    assert(text::text_lt(was[a].path@, was[b].path@));
                }
            }
            assert forall|c: int| 0 <= c < hi implies lists_path(
                index@,
                (#[trigger] claims@[c]).path@,
            ) by {
                if c < lo {
                    let k = choose|k: int|
                        0 <= k < was.len() && (#[trigger] was[k]).path@ == claims@[c].path@;
                    assert(index@[k] == was[k]);
                } else {
                    assert(claims@[c].path@ == claims@[lo as int].path@);
                    assert(index@[was.len() as int].path@ == claims@[c].path@);
                }
            }
            assert(claims@[hi - 1].path@ == claims@[lo as int].path@);
        }
        lo = hi;
    }
    proof {
        assert forall|i: int, path: Seq<char>|
            0 <= i < targets.len() && #[trigger] gives_up(
                targets@,
                packages,
                i,
                path,
            ) implies lists_path(index@, path) by {
            reveal(claimed);
            assert(claimed(claims@, i, path));
            let k = choose|k: int|
                0 <= k < claims.len() && (#[trigger] claims@[k]).target == i && claims@[k].path@
                    == path;
            assert(lists_path(index@, claims@[k].path@));
        }
    }
    index
}

/// Who gives `path` up to the target named `name`.
fn who_gives_up<'a>(
    index: &Vec<Held<'_>>,
    owners: &Owners,
    targets: &'a Vec<Target>,
    path: &str,
    name: &str,
) -> (r: Option<&'a str>)
    requires
        handovers_of(index@, targets@, owners@),
    ensures
        text::maybe_str(r) == previous_owner(targets@, owners@, path@, name@, 0),
{
    let mut low: usize = 0;
    let mut high: usize = index.len();
    while low < high
        invariant
            low <= high <= index.len(),
            handovers_of(index@, targets@, owners@),
            forall|k: int| 0 <= k < low ==> (#[trigger] index@[k]).path@ != path@,
            forall|k: int| high <= k < index.len() ==> (#[trigger] index@[k]).path@ != path@,
        decreases high - low,
    {
        let mid: usize = low + (high - low) / 2;
        let held = index[mid];
        if text::same(held.path, path) {
            proof {
                assert(index@[mid as int].handover.of(targets@, owners@, path@));
                a_handover_finds_the_previous_owner(
                    held.handover,
                    targets@,
                    owners@,
                    path@,
                    name@,
                );
            }
            return held.handover.other_than(name, targets);
        }
        proof {
            text::lemma_text_lt_total(held.path@, path@);
            assert forall|k: int| 0 <= k < index.len() && k != mid implies (if k < mid {
                text::text_lt((#[trigger] index@[k]).path@, held.path@)
            } else {
                text::text_lt(held.path@, index@[k].path@)
            }) by {}
            text::lemma_text_lt_total(path@, path@);
        }
        if text::less(held.path, path) {
            proof {
                assert forall|k: int| 0 <= k < mid + 1 implies (#[trigger] index@[k]).path@
                    != path@ by {
                    if k < mid {
                        text::lemma_text_lt_transitive(index@[k].path@, held.path@, path@);
                    }
                }
            }
            low = mid + 1;
        } else {
            proof {
                assert forall|k: int| mid <= k < index.len() implies (#[trigger] index@[k]).path@
                    != path@ by {
                    if k > mid {
                        text::lemma_text_lt_transitive(path@, held.path@, index@[k].path@);
                    }
                }
            }
            high = mid;
        }
    }
    proof {
        assert(!lists_path(index@, path@));
        assert forall|k: int|
            0 <= k < targets.len() && #[trigger] gives_up(
                targets@,
                owners@,
                k,
                path@,
            ) implies targets@[k].name@ == name@ by {
            assert(lists_path(index@, path@));
        }
        lemma_previous_owner_gap(targets@, owners@, path@, name@, 0, targets.len() as int);
    }
    None
}

// ---------------------------------------------------------------------------------------------
// The check

/// Everything the check reads.
pub struct Scene {
    /// What is on the filesystem.
    pub fs: Filesystem,
    /// The installed packages.
    pub packages: Seq<PackageView>,
    /// The packages this transaction installs.
    pub targets: Seq<Target>,
    /// The names of the packages it removes.
    pub removals: Seq<Seq<char>>,
    /// Which paths the user released.
    pub released: Released,
    /// The bounds of the directory walk.
    pub limits: WalkLimits,
}

impl Scene {
    /// Whether a package this transaction removes owns `path`.
    pub open spec fn removed(self, path: Seq<char>) -> bool {
        some_holds(self.packages, self.removals, path)
    }

    /// What the rules are asked about one path of target `t`.
    pub open spec fn context(self, t: int, spelled: Seq<char>) -> FilesystemContextView {
        let path = filelist::stripped(spelled);
        let name = self.targets[t].name@;
        let probe = self.fs.probe(path);
        let directory = filelist::names_directory(spelled);
        let removed = self.removed(path);
        let from = if removed {
            None
        } else {
            previous_owner(self.targets, self.packages, path, name, 0)
        };
        let backup = self.targets[t].backups@.contains(path);
        FilesystemContextView {
            package_says_directory: directory,
            existing: probe.existing,
            resolves_to_directory: probe.resolves_to_directory,
            old_version_owns_file: owner_holds(self.packages, name, path),
            owned_by_removal: removed,
            changing_owner_from: from,
            directory_emptied_by_transaction: probe.existing == Existing::Directory && !directory
                && from is None && vacated(
                self.fs,
                self.packages,
                path,
                name,
                self.removals,
                self.limits,
            ),
            new_is_backup: backup,
            owned_by_anyone: backup && owner::owners_of(self.packages, path).len() > 0,
            overwrite: (self.released)(path),
        }
    }

    /// What the rules say of one path of target `t`.
    pub open spec fn verdict(self, t: int, spelled: Seq<char>) -> VerdictView {
        decision::verdict(self.context(t, spelled))
    }

    /// The paths of target `t` that its installed version does not own.
    pub open spec fn new_paths(self, t: int) -> Seq<Seq<char>> {
        match owner::files_of(self.packages, self.targets[t].name@) {
            Some(old) => filelist::difference(self.targets[t].files@, old),
            None => self.targets[t].files@,
        }
    }

    /// What is left of the paths once the first is dealt with.
    pub open spec fn after(self, t: int, paths: Seq<Seq<char>>) -> Seq<Seq<char>> {
        if decision::covers_contents(self.verdict(t, paths[0])) && filelist::names_directory(
            paths[0],
        ) {
            skip_below(paths.skip(1), paths[0])
        } else {
            paths.skip(1)
        }
    }

    /// The conflicts of a list of target `t`'s paths.
    pub open spec fn path_conflicts(self, t: int, paths: Seq<Seq<char>>) -> Seq<FileConflictView>
        decreases paths.len(),
    {
        if paths.len() == 0 {
            Seq::empty()
        } else {
            proof {
                lemma_skip_below(paths.skip(1), paths[0]);
            }
            let rest = self.path_conflicts(t, self.after(t, paths));
            if self.verdict(t, paths[0]) is Conflict {
                let path = filelist::stripped(paths[0]);
                seq![
                    FileConflictView {
                        package: self.targets[t].name@,
                        path,
                        blocker: BlockerView::Filesystem {
                            owner: holder(self.packages, path),
                        },
                    },
                ] + rest
            } else {
                rest
            }
        }
    }

    /// The paths of a list of target `t`'s paths that change owner.
    pub open spec fn path_handovers(self, t: int, paths: Seq<Seq<char>>) -> Seq<Seq<char>>
        decreases paths.len(),
    {
        if paths.len() == 0 {
            Seq::empty()
        } else {
            proof {
                lemma_skip_below(paths.skip(1), paths[0]);
            }
            let rest = self.path_handovers(t, self.after(t, paths));
            if self.verdict(t, paths[0]) is ChangesOwner {
                seq![filelist::stripped(paths[0])] + rest
            } else {
                rest
            }
        }
    }

    /// The paths of the first `n` targets that change owner.
    pub open spec fn handed_over(self, n: int) -> Seq<Seq<char>>
        decreases n,
    {
        if n <= 0 {
            Seq::empty()
        } else {
            self.handed_over(n - 1) + self.path_handovers(n - 1, self.new_paths(n - 1))
        }
    }
}

/// The first installed package that owns what is at `path`, as a file or as a directory.
pub open spec fn holder(packages: Seq<PackageView>, path: Seq<char>) -> Option<Seq<char>> {
    match owner::owner_of(packages, path) {
        Some(name) => Some(name),
        None => owner::owner_of(packages, path.push('/')),
    }
}

/// The first installed package that owns what is at `path`, as a file or as a directory.
fn holder_of(owners: &Owners, path: &str) -> (r: Option<String>)
    ensures
        text::maybe(r) == holder(owners@, path@),
{
    match owners.owner_of(path) {
        Some(name) => Some(name),
        None => {
            let mut directory = path.to_owned();
            directory.push('/');
            owners.owner_of(directory.as_str())
        },
    }
}

/// Whether one of the installed packages `names` owns `path`.
pub open spec fn some_holds(
    packages: Seq<PackageView>,
    names: Seq<Seq<char>>,
    path: Seq<char>,
) -> bool {
    exists|i: int| 0 <= i < names.len() && owner_holds(packages, #[trigger] names[i], path)
}

/// Whether the installed package `name` owns `path`.
pub open spec fn owner_holds(
    packages: Seq<PackageView>,
    name: Seq<char>,
    path: Seq<char>,
) -> bool {
    match owner::files_of(packages, name) {
        Some(files) => files.contains(path),
        None => false,
    }
}

/// `paths` without the leading ones that start with `prefix`.
pub open spec fn skip_below(paths: Seq<Seq<char>>, prefix: Seq<char>) -> Seq<Seq<char>>
    decreases paths.len(),
{
    if paths.len() > 0 && text::starts_with(paths[0], prefix) {
        skip_below(paths.skip(1), prefix)
    } else {
        paths
    }
}

/// [`skip_below`] never lengthens a list.
pub proof fn lemma_skip_below(paths: Seq<Seq<char>>, prefix: Seq<char>)
    ensures
        skip_below(paths, prefix).len() <= paths.len(),
    decreases paths.len(),
{
    if paths.len() > 0 && text::starts_with(paths[0], prefix) {
        lemma_skip_below(paths.skip(1), prefix);
    }
}

/// Whether the installed package `name` owns `path`.
fn holds(owners: &Owners, name: &str, path: &str) -> (r: bool)
    ensures
        r == owner_holds(owners@, name@, path@),
{
    match owners.files_of(name) {
        Some(files) => files.contains(path),
        None => false,
    }
}

/// Whether a package this transaction removes owns `path`.
fn removed_owner(owners: &Owners, removals: &Vec<String>, path: &str) -> (r: bool)
    ensures
        r == some_holds(owners@, text::texts(removals@), path@),
{
    let mut i: usize = 0;
    while i < removals.len()
        invariant
            i <= removals.len(),
            forall|k: int|
                0 <= k < i ==> !owner_holds(owners@, #[trigger] text::texts(removals@)[k], path@),
        decreases removals.len() - i,
    {
        if holds(owners, removals[i].as_str(), path) {
            assert(owner_holds(owners@, text::texts(removals@)[i as int], path@));
            return true;
        }
        i += 1;
    }
    false
}

/// Whether `path` starts with `prefix`.
fn begins(path: &str, prefix: &str) -> (r: bool)
    ensures
        r == text::starts_with(path@, prefix@),
{
    let s = text::chars(path);
    text::after_text(s.as_slice(), prefix).is_some()
}

/// Answers every question the rules ask about one path, and what they say.
pub fn examine(
    fs: &Filesystem,
    owners: &Owners,
    targets: &Vec<Target>,
    t: usize,
    spelled: &str,
    index: &Vec<Held<'_>>,
    removals: &Vec<String>,
    overwrite: &Overwrite,
    limits: &WalkLimits,
) -> (r: Verdict)
    requires
        t < targets.len(),
        handovers_of(index@, targets@, owners@),
    ensures
        r@ == (Scene {
            fs: *fs,
            packages: owners@,
            targets: targets@,
            removals: text::texts(removals@),
            released: overwrite@,
            limits: *limits,
        }).verdict(t as int, spelled@),
{
    let ghost scene = Scene {
        fs: *fs,
        packages: owners@,
        targets: targets@,
        removals: text::texts(removals@),
        released: overwrite@,
        limits: *limits,
    };
    let target = &targets[t];
    let directory = filelist::is_directory(spelled);
    let path = filelist::strip_dir(spelled);
    let probe = fs.probe_existing(path);
    if probe.existing == Existing::Absent {
        return Verdict::Resolved(decision::Resolution::NotPresent);
    }
    let owned_by_removal = removed_owner(owners, removals, path);
    let changing_owner_from = if owned_by_removal {
        None
    } else {
        who_gives_up(index, owners, targets, path, target.name.as_str())
    };
    let directory_emptied_by_transaction = probe.existing == Existing::Directory && !directory
        && changing_owner_from.is_none() && directory_is_vacated(
        fs,
        owners,
        path,
        target.name.as_str(),
        removals,
        limits,
    );
    let new_is_backup = target.backups.contains(path);
    let context = FilesystemContext {
        package_says_directory: directory,
        existing: probe.existing,
        resolves_to_directory: probe.resolves_to_directory,
        old_version_owns_file: holds(owners, target.name.as_str(), path),
        owned_by_removal,
        changing_owner_from,
        directory_emptied_by_transaction,
        new_is_backup,
        owned_by_anyone: new_is_backup && owners.anyone_owns(path),
        overwrite: overwrite.matches(path),
    };
    assert(context@ == scene.context(t as int, spelled@));
    decision::decide(&context)
}

/// The paths of target `t` that its installed version does not own: the ones to look at.
pub fn new_paths<'a>(owners: &Owners, target: &'a Target) -> (r: Vec<&'a str>)
    ensures
        text::spelled(r@) == match owner::files_of(owners@, target.name@) {
            Some(old) => filelist::difference(target.files@, old),
            None => target.files@,
        },
{
    match owners.files_of(target.name.as_str()) {
        Some(old) => target.files.difference(old),
        None => target.files.iter(),
    }
}

/// Checks target `t` against the filesystem, given who owns the paths that change hands.
pub fn check_filesystem(
    fs: &Filesystem,
    owners: &Owners,
    targets: &Vec<Target>,
    t: usize,
    index: &Vec<Held<'_>>,
    removals: &Vec<String>,
    overwrite: &Overwrite,
    limits: &WalkLimits,
    into: &mut Check,
)
    requires
        t < targets.len(),
        handovers_of(index@, targets@, owners@),
    ensures
        ({
            let scene = Scene {
                fs: *fs,
                packages: owners@,
                targets: targets@,
                removals: text::texts(removals@),
                released: overwrite@,
                limits: *limits,
            };
            let paths = scene.new_paths(t as int);
            &&& crate::conflict::conflict_views(final(into).conflicts@)
                == crate::conflict::conflict_views(old(into).conflicts@) + scene.path_conflicts(
                t as int,
                paths,
            )
            &&& forall|path: Seq<char>|
                #[trigger] final(into).skip_remove@.contains(path) <==> old(
                    into,
                ).skip_remove@.contains(path) || scene.path_handovers(t as int, paths).contains(
                    path,
                )
        }),
{
    let target = &targets[t];
    let paths = new_paths(owners, target);
    let ghost scene = Scene {
        fs: *fs,
        packages: owners@,
        targets: targets@,
        removals: text::texts(removals@),
        released: overwrite@,
        limits: *limits,
    };
    let ghost views = text::spelled(paths@);
    let ghost i = t as int;
    let ghost start = crate::conflict::conflict_views(into.conflicts@);
    let ghost kept = into.skip_remove@;
    let ghost mut found: Seq<FileConflictView> = Seq::empty();
    let ghost mut handed: Seq<Seq<char>> = Seq::empty();
    let mut at: usize = 0;
    proof {
        assert(views.skip(0) =~= views);
        assert(start + found =~= start);
        assert(found + scene.path_conflicts(i, views) =~= scene.path_conflicts(i, views));
        assert(handed + scene.path_handovers(i, views) =~= scene.path_handovers(i, views));
    }
    while at < paths.len()
        invariant
            at <= paths.len(),
            t < targets.len(),
            i == t,
            *target == targets@[i],
            views == text::spelled(paths@),
            scene == (Scene {
                fs: *fs,
                packages: owners@,
                targets: targets@,
                removals: text::texts(removals@),
                released: overwrite@,
                limits: *limits,
            }),
            handovers_of(index@, targets@, owners@),
            crate::conflict::conflict_views(into.conflicts@) == start + found,
            scene.path_conflicts(i, views) == found + scene.path_conflicts(
                i,
                views.skip(at as int),
            ),
            scene.path_handovers(i, views) == handed + scene.path_handovers(
                i,
                views.skip(at as int),
            ),
            forall|path: Seq<char>|
                #[trigger] into.skip_remove@.contains(path) <==> kept.contains(path)
                    || handed.contains(path),
        decreases paths.len() - at,
    {
        let spelled = paths[at];
        let verdict = examine(
            fs,
            owners,
            targets,
            t,
            spelled,
            index,
            removals,
            overwrite,
            limits,
        );
        let ghost here = views.skip(at as int);
        proof {
            assert(here[0] == spelled@);
            assert(here.skip(1) =~= views.skip(at + 1));
        }
        at += 1;
        let stripped = filelist::strip_dir(spelled);
        if verdict.changes_owner_from().is_some() {
            into.skip_remove.insert(stripped.to_owned());
            proof {
                let was = handed;
                handed = handed.push(stripped@);
                assert(was + (seq![stripped@] + scene.path_handovers(i, scene.after(i, here)))
                    =~= handed + scene.path_handovers(i, scene.after(i, here)));
                assert forall|path: Seq<char>| handed.contains(path) <==> was.contains(path) || path
                    == stripped@ by {
                    if was.contains(path) {
                        let k = choose|k: int| 0 <= k < was.len() && was[k] == path;
                        assert(handed[k] == path);
                    }
                    if path == stripped@ {
                        assert(handed[was.len() as int] == path);
                    }
                }
            }
        }
        if verdict.skips_directory_contents() && filelist::is_directory(spelled) {
            let ghost next = at;
            while at < paths.len() && begins(paths[at], spelled)
                invariant
                    next <= at <= paths.len(),
                    views == text::spelled(paths@),
                    skip_below(here.skip(1), spelled@) == skip_below(
                        views.skip(at as int),
                        spelled@,
                    ),
                decreases paths.len() - at,
            {
                assert(views.skip(at as int)[0] == paths@[at as int]@);
                assert(views.skip(at as int).skip(1) =~= views.skip(at + 1));
                at += 1;
            }
            proof {
                if at < paths.len() {
                    assert(views.skip(at as int)[0] == paths@[at as int]@);
                }
            }
        }
        assert(views.skip(at as int) == scene.after(i, here));
        if verdict.is_conflict() {
            let conflict = FileConflict {
                package: target.name.clone(),
                path: stripped.to_owned(),
                blocker: Blocker::Filesystem { owner: holder_of(owners, stripped) },
            };
            into.conflicts.push(conflict);
            proof {
                let was = found;
                found = found.push(conflict@);
                assert(start + found =~= (start + was).push(conflict@));
                assert(was + (seq![conflict@] + scene.path_conflicts(i, scene.after(i, here)))
                    =~= found + scene.path_conflicts(i, scene.after(i, here)));
            }
        }
    }
    proof {
        assert(views.skip(at as int) =~= Seq::<Seq<char>>::empty());
        assert(found + Seq::<FileConflictView>::empty() =~= found);
        assert(handed + Seq::<Seq<char>>::empty() =~= handed);
    }
}

} // verus!
