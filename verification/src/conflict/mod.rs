//! File conflicts.

pub mod collision;
pub mod decision;
pub mod filelist;
pub mod filesystem;
pub mod load;

use vstd::prelude::*;

use crate::conflict::filelist::FileList;
use crate::conflict::filesystem::{Filesystem, Scene};
use crate::owner;
use crate::owner::Owners;
use crate::table::{Table, TextSet};
use crate::text;

verus! {

broadcast use crate::text::group_lists;

/// A package this transaction installs, as conflict detection sees it.
#[derive(Debug)]
pub struct Target {
    /// The package name, as `%NAME%` spells it.
    pub name: String,
    /// The package version, as `.PKGINFO`'s `pkgver` spells it.
    pub version: String,
    /// Every path the package ships, directories with their trailing `/`.
    pub files: FileList,
    /// Paths the package declares as `%BACKUP%`.
    pub backups: TextSet,
    /// The package's `.INSTALL` scriptlet, if it ships one.
    pub install_script: Option<Vec<u8>>,
}

/// The file lists of `targets`.
pub open spec fn lists(targets: Seq<Target>) -> Seq<Seq<Seq<char>>> {
    Seq::new(targets.len(), |i: int| targets[i].files@)
}

/// What is in the way, and who put it there.
#[derive(Clone, Debug, Eq, PartialEq)]
pub enum Blocker {
    /// Another package in this same transaction ships the path.
    Target {
        /// Its name.
        other: String,
    },
    /// Something is already on the filesystem.
    Filesystem {
        /// The installed package that owns it, if any owns it.
        owner: Option<String>,
    },
}

/// What a [`Blocker`] says.
pub enum BlockerView {
    /// [`Blocker::Target`].
    Target {
        /// The package's name.
        other: Seq<char>,
    },
    /// [`Blocker::Filesystem`].
    Filesystem {
        /// The owner's name.
        owner: Option<Seq<char>>,
    },
}

impl View for Blocker {
    type V = BlockerView;

    open spec fn view(&self) -> BlockerView {
        match self {
            Blocker::Target { other } => BlockerView::Target { other: other@ },
            Blocker::Filesystem { owner } => BlockerView::Filesystem { owner: text::maybe(*owner) },
        }
    }
}

impl BlockerView {
    /// The words for what is in the way.
    pub open spec fn words(self) -> Seq<char> {
        match self {
            BlockerView::Target { other } => "also in "@ + other,
            BlockerView::Filesystem { owner: Some(owner) } => "owned by "@ + owner,
            BlockerView::Filesystem { owner: None } => "exists in filesystem"@,
        }
    }
}

impl Blocker {
    /// The words for what is in the way.
    pub fn message(&self) -> (r: String)
        ensures
            r@ == self@.words(),
    {
        match self {
            Blocker::Target { other } => "also in ".to_owned().concat(other.as_str()),
            Blocker::Filesystem { owner: Some(owner) } => "owned by ".to_owned().concat(
                owner.as_str(),
            ),
            Blocker::Filesystem { owner: None } => "exists in filesystem".to_owned(),
        }
    }
}

/// One path this transaction cannot write.
#[derive(Clone, Debug, Eq, PartialEq)]
pub struct FileConflict {
    /// The package that wanted to write it.
    pub package: String,
    /// The path, relative to the installation root.
    pub path: String,
    /// What is in the way.
    pub blocker: Blocker,
}

/// What a [`FileConflict`] says.
pub struct FileConflictView {
    /// The package.
    pub package: Seq<char>,
    /// The path.
    pub path: Seq<char>,
    /// What is in the way.
    pub blocker: BlockerView,
}

impl View for FileConflict {
    type V = FileConflictView;

    open spec fn view(&self) -> FileConflictView {
        FileConflictView { package: self.package@, path: self.path@, blocker: self.blocker@ }
    }
}

impl FileConflictView {
    /// The words for the conflict.
    pub open spec fn words(self) -> Seq<char> {
        self.package + ": "@ + self.path + " ("@ + self.blocker.words() + ")"@
    }
}

impl FileConflict {
    /// The words for the conflict.
    pub fn message(&self) -> (r: String)
        ensures
            r@ == self@.words(),
    {
        let mut out = self.package.clone();
        out.push_str(": ");
        out.push_str(self.path.as_str());
        out.push_str(" (");
        out.push_str(self.blocker.message().as_str());
        out.push_str(")");
        out
    }
}

/// The views of a list of conflicts.
pub open spec fn conflict_views(list: Seq<FileConflict>) -> Seq<FileConflictView> {
    Seq::new(list.len(), |i: int| list[i]@)
}

/// Appending a conflict appends its view.
pub broadcast proof fn lemma_conflicts_push(list: Seq<FileConflict>, c: FileConflict)
    ensures
        #[trigger] conflict_views(list.push(c)) == conflict_views(list).push(c@),
{
    assert(conflict_views(list.push(c)) =~= conflict_views(list).push(c@));
}

/// The result of checking a transaction.
#[derive(Debug)]
pub struct Check {
    /// Every conflict found, in target order then path order.
    pub conflicts: Vec<FileConflict>,
    /// Paths that must not be deleted by a removal step in this transaction.
    ///
    /// A path that changes owner between two packages upgraded together is installed by its new
    /// owner. The old owner's removal must not delete it.
    pub skip_remove: TextSet,
}

impl Check {
    /// Whether the transaction may proceed.
    pub fn is_clear(&self) -> (r: bool)
        ensures
            r == (self.conflicts@.len() == 0),
    {
        self.conflicts.len() == 0
    }
}

impl Default for Check {
    /// Nothing found.
    fn default() -> (r: Self)
        ensures
            r.conflicts@.len() == 0,
            r.skip_remove@.len() == 0,
    {
        Check { conflicts: Vec::new(), skip_remove: TextSet::new() }
    }
}

/// Bounds on the directory walk the "emptied by this transaction" rule performs.
#[derive(Clone, Copy, Debug)]
pub struct WalkLimits {
    /// How deep the walk may recurse below the directory it starts at.
    pub max_depth: u32,
    /// How many entries the walk may examine in total.
    pub max_entries: usize,
}

impl Default for WalkLimits {
    fn default() -> (r: Self)
        ensures
            r.max_depth == 64,
            r.max_entries == 100_000,
    {
        WalkLimits { max_depth: 64, max_entries: 100_000 }
    }
}

/// Which paths the user has released from protection: pacman's `--overwrite`.
///
/// The paths themselves, not the patterns that matched them. Which pattern matches which path is
/// for the caller to say.
#[derive(Debug)]
pub struct Overwrite {
    released: TextSet,
}

/// Which paths are released.
pub type Released = spec_fn(Seq<char>) -> bool;

impl View for Overwrite {
    type V = Released;

    /// Which paths are released.
    closed spec fn view(&self) -> Released {
        |path: Seq<char>| self.released@.contains(path)
    }
}

impl Overwrite {
    /// Releases the paths given, and no others.
    pub fn new(released: TextSet) -> (r: Self)
        ensures
            forall|path: Seq<char>| #[trigger] (r@)(path) == released@.contains(path),
    {
        Overwrite { released }
    }

    /// Whether `path` is released.
    pub fn matches(&self, path: &str) -> (r: bool)
        ensures
            r == (self@)(path@),
    {
        self.released.contains(path)
    }
}

impl Default for Overwrite {
    /// Releases nothing.
    fn default() -> (r: Self)
        ensures
            forall|path: Seq<char>| !#[trigger] (r@)(path),
    {
        Overwrite { released: TextSet::new() }
    }
}

/// Whether a collision stands: `--overwrite` releases it only where both packages spell the path
/// the same way.
pub open spec fn stands(targets: Seq<Target>, released: Released, c: collision::Pair) -> bool {
    !(released(c.2) && targets[c.1].files@.contains(c.2))
}

/// The conflict a collision is.
pub open spec fn between(targets: Seq<Target>, c: collision::Pair) -> FileConflictView {
    FileConflictView {
        package: targets[c.0].name@,
        path: c.2,
        blocker: BlockerView::Target { other: targets[c.1].name@ },
    }
}

/// The conflicts of a list of collisions.
pub open spec fn standing(
    targets: Seq<Target>,
    released: Released,
    found: Seq<collision::Pair>,
) -> Seq<FileConflictView> {
    found.filter(|c: collision::Pair| stands(targets, released, c)).map_values(
        |c: collision::Pair| between(targets, c),
    )
}

/// The conflicts between the packages of a transaction: every pair of them, in order, and every
/// path the first ships that collides with the second.
pub open spec fn target_conflicts(targets: Seq<Target>, released: Released) -> Seq<
    FileConflictView,
> {
    standing(targets, released, collision::pairwise(lists(targets), targets.len() as int))
}

/// Every collision names two packages of the transaction.
proof fn lemma_pairs_in_range(files: Seq<Seq<Seq<char>>>, m: int)
    requires
        0 <= m <= files.len(),
    ensures
        forall|k: int|
            0 <= k < collision::pairwise(files, m).len() ==> 0 <= (
            #[trigger] collision::pairwise(files, m)[k]).0 < collision::pairwise(files, m)[k].1
                < files.len(),
    decreases m,
{
    if m > 0 {
        lemma_pairs_in_range(files, m - 1);
        lemma_later_in_range(files, m - 1, files.len() as int);
        let a = collision::pairwise(files, m - 1);
        let b = collision::against_later(files, m - 1, files.len() as int);
        assert forall|k: int| 0 <= k < (a + b).len() implies 0 <= (#[trigger] (a + b)[k]).0 < (a
            + b)[k].1 < files.len() by {
            if k < a.len() {
                assert((a + b)[k] == a[k]);
            } else {
                assert((a + b)[k] == b[k - a.len()]);
            }
        }
    }
}

proof fn lemma_later_in_range(files: Seq<Seq<Seq<char>>>, i: int, n: int)
    requires
        0 <= i,
        n <= files.len(),
    ensures
        forall|k: int|
            0 <= k < collision::against_later(files, i, n).len() ==> (
            #[trigger] collision::against_later(files, i, n)[k]).0 == i && i
                < collision::against_later(files, i, n)[k].1 < n,
    decreases n - i,
{
    if n > i + 1 {
        lemma_later_in_range(files, i, n - 1);
        let a = collision::against_later(files, i, n - 1);
        let b = collision::against(files, i, n - 1);
        assert forall|k: int| 0 <= k < (a + b).len() implies (#[trigger] (a + b)[k]).0 == i && i < (
        a + b)[k].1 < n by {
            if k < a.len() {
                assert((a + b)[k] == a[k]);
            } else {
                assert((a + b)[k] == b[k - a.len()]);
            }
        }
    }
}

/// The conflicts of one list of collisions, then those of another.
proof fn lemma_standing_add(
    targets: Seq<Target>,
    released: Released,
    a: Seq<collision::Pair>,
    b: Seq<collision::Pair>,
)
    ensures
        standing(targets, released, a + b) == standing(targets, released, a) + standing(
            targets,
            released,
            b,
        ),
{
    let keep = |c: collision::Pair| stands(targets, released, c);
    Seq::filter_distributes_over_add(a, b, keep);
    assert(standing(targets, released, a + b) =~= standing(targets, released, a) + standing(
        targets,
        released,
        b,
    ));
}

/// The collisions of the first packages come first, and those of the others after them.
proof fn lemma_pairwise_parts(files: Seq<Seq<Seq<char>>>, m: int, n: int) -> (rest: Seq<
    collision::Pair,
>)
    requires
        0 <= m <= n <= files.len(),
    ensures
        collision::pairwise(files, n) == collision::pairwise(files, m) + rest,
        forall|k: int| 0 <= k < rest.len() ==> (#[trigger] rest[k]).0 >= m,
    decreases n - m,
{
    if m == n {
        let none = Seq::<collision::Pair>::empty();
        assert(collision::pairwise(files, m) + none =~= collision::pairwise(files, m));
        none
    } else {
        let before = lemma_pairwise_parts(files, m, n - 1);
        let last = collision::against_later(files, n - 1, files.len() as int);
        lemma_later_in_range(files, n - 1, files.len() as int);
        let rest = before + last;
        assert(collision::pairwise(files, n) =~= collision::pairwise(files, m) + rest);
        assert forall|k: int| 0 <= k < rest.len() implies (#[trigger] rest[k]).0 >= m by {
            if k < before.len() {
                assert(rest[k] == before[k]);
            } else {
                assert(rest[k] == last[k - before.len()]);
            }
        }
        rest
    }
}

/// The conflicts of target `t` with the targets after it, out of all collisions, and where the
/// collisions of the next target start.
fn of_target(
    targets: &Vec<Target>,
    overwrite: &Overwrite,
    found: &Vec<collision::Collision<'_>>,
    from: usize,
    t: usize,
) -> (r: (Vec<FileConflict>, usize))
    requires
        t < targets.len(),
        collision::collision_views(found@) == collision::pairwise(
            lists(targets@),
            targets.len() as int,
        ),
        from == collision::pairwise(lists(targets@), t as int).len(),
    ensures
        conflict_views(r.0@) == own_conflicts(targets@, overwrite@, t as int),
        r.1 == collision::pairwise(lists(targets@), t + 1).len(),
{
    broadcast use lemma_conflicts_push;

    let ghost files = lists(targets@);
    let ghost pairs = collision::collision_views(found@);
    let ghost own = collision::against_later(files, t as int, files.len() as int);
    let ghost keep = |c: collision::Pair| stands(targets@, overwrite@, c);
    let ghost name = |c: collision::Pair| between(targets@, c);
    let ghost mut rest: Seq<collision::Pair> = Seq::empty();
    let mut conflicts: Vec<FileConflict> = Vec::new();
    let mut i: usize = from;
    proof {
        rest = lemma_pairwise_parts(files, t + 1, files.len() as int);
        lemma_pairs_in_range(files, files.len() as int);
        lemma_later_in_range(files, t as int, files.len() as int);
        reveal(Seq::filter);
        assert(conflict_views(conflicts@) =~= own.take(0).filter(keep).map_values(name));
        assert forall|k: int| 0 <= k < own.len() implies pairs[from + k] == own[k] by {}
        assert forall|k: int| 0 <= k < rest.len() implies pairs[from + own.len() + k] == rest[k] by {}
    }
    while i < found.len() && found[i].first == t
        invariant
            from <= i <= found.len(),
            t < targets.len(),
            files == lists(targets@),
            pairs == collision::collision_views(found@),
            pairs == collision::pairwise(files, files.len() as int),
            pairs == collision::pairwise(files, t as int) + own + rest,
            from == collision::pairwise(files, t as int).len(),
            i <= from + own.len(),
            own == collision::against_later(files, t as int, files.len() as int),
            forall|k: int| 0 <= k < own.len() ==> (#[trigger] own[k]).0 == t,
            forall|k: int| 0 <= k < rest.len() ==> (#[trigger] rest[k]).0 >= t + 1,
            forall|k: int|
                0 <= k < pairs.len() ==> 0 <= (#[trigger] pairs[k]).0 < pairs[k].1 < targets.len(),
            keep == (|c: collision::Pair| stands(targets@, overwrite@, c)),
            name == (|c: collision::Pair| between(targets@, c)),
            conflict_views(conflicts@) == own.take(i - from).filter(keep).map_values(name),
        decreases found.len() - i,
    {
        let c = found[i];
        let ghost at = i - from;
        let ghost was = own.take(at).filter(keep);
        proof {
            assert(pairs[i as int] == c@);
            if at == own.len() {
                assert(pairs[i as int] == rest[0]);
            }
            assert(pairs[i as int] == own[at]);
            crate::order::lemma_filter_step(own, at, keep);
        }
        if !(overwrite.matches(c.path) && targets[c.second].files.contains(c.path)) {
            conflicts.push(
                FileConflict {
                    package: targets[c.first].name.clone(),
                    path: c.path.to_owned(),
                    blocker: Blocker::Target { other: targets[c.second].name.clone() },
                },
            );
            assert(was.push(c@).map_values(name) =~= was.map_values(name).push(name(c@)));
        }
        i += 1;
    }
    proof {
        if i < from + own.len() {
            assert(pairs[i as int] == own[i - from]);
            assert(pairs[i as int] == found@[i as int]@);
        }
        assert(own.take(own.len() as int) =~= own);
    }
    (conflicts, i)
}

/// The conflicts of target `t` with the targets after it.
pub open spec fn own_conflicts(targets: Seq<Target>, released: Released, t: int) -> Seq<
    FileConflictView,
> {
    standing(
        targets,
        released,
        collision::against_later(lists(targets), t, targets.len() as int),
    )
}

/// Checks every target against every other target.
pub fn check_targets(targets: &Vec<Target>, overwrite: &Overwrite, into: &mut Check)
    ensures
        conflict_views(final(into).conflicts@) == conflict_views(old(into).conflicts@)
            + target_conflicts(targets@, overwrite@),
        final(into).skip_remove == old(into).skip_remove,
{
    let found = collision::collisions(targets);
    let ghost files = lists(targets@);
    let ghost start = conflict_views(into.conflicts@);
    let mut conflicts: Vec<FileConflict> = Vec::new();
    std::mem::swap(&mut conflicts, &mut into.conflicts);
    let mut at: usize = 0;
    let mut t: usize = 0;
    proof {
        reveal(Seq::filter);
        assert(start + standing(targets@, overwrite@, collision::pairwise(files, 0)) =~= start);
    }
    while t < targets.len()
        invariant
            t <= targets.len(),
            files == lists(targets@),
            collision::collision_views(found@) == collision::pairwise(
                files,
                targets.len() as int,
            ),
            at == collision::pairwise(files, t as int).len(),
            conflict_views(conflicts@) == start + standing(
                targets@,
                overwrite@,
                collision::pairwise(files, t as int),
            ),
        decreases targets.len() - t,
    {
        let (mut own, next) = of_target(targets, overwrite, &found, at, t);
        proof {
            let a = collision::pairwise(files, t as int);
            let b = collision::against_later(files, t as int, files.len() as int);
            lemma_standing_add(targets@, overwrite@, a, b);
            assert(start + (standing(targets@, overwrite@, a) + standing(targets@, overwrite@, b))
                =~= start + standing(targets@, overwrite@, a) + standing(targets@, overwrite@, b));
        }
        let ghost was = conflict_views(conflicts@);
        let ghost more = conflict_views(own@);
        conflicts.append(&mut own);
        assert(conflict_views(conflicts@) =~= was + more);
        at = next;
        t += 1;
    }
    into.conflicts = conflicts;
}

/// A conflict put after every one whose path does not come after its own, counted from the end.
pub open spec fn insert_by_path(s: Seq<FileConflictView>, c: FileConflictView) -> Seq<
    FileConflictView,
>
    decreases s.len(),
{
    if s.len() == 0 || text::text_le(s.last().path, c.path) {
        s.push(c)
    } else {
        insert_by_path(s.drop_last(), c).push(s.last())
    }
}

/// Conflicts in path order. Those of one path keep their order.
pub open spec fn by_path(s: Seq<FileConflictView>) -> Seq<FileConflictView>
    decreases s.len(),
{
    if s.len() == 0 {
        Seq::empty()
    } else {
        insert_by_path(by_path(s.drop_last()), s.last())
    }
}

/// Inserting where every later path comes after is inserting by path.
proof fn lemma_insert_by_path(s: Seq<FileConflictView>, c: FileConflictView, at: int)
    requires
        0 <= at <= s.len(),
        at > 0 ==> text::text_le(s[at - 1].path, c.path),
        forall|j: int| at <= j < s.len() ==> !text::text_le((#[trigger] s[j]).path, c.path),
    ensures
        insert_by_path(s, c) == s.insert(at, c),
    decreases s.len(),
{
    if at == s.len() {
        assert(s.insert(at, c) =~= s.push(c));
    } else {
        let t = s.drop_last();
        assert(!text::text_le(s[s.len() - 1].path, c.path));
        assert forall|j: int| at <= j < t.len() implies !text::text_le(
            (#[trigger] t[j]).path,
            c.path,
        ) by {
            assert(t[j] == s[j]);
        }
        lemma_insert_by_path(t, c, at);
        assert(s.insert(at, c) =~= t.insert(at, c).push(s.last()));
    }
}

/// Puts conflicts in path order.
fn sort_by_path(conflicts: Vec<FileConflict>) -> (r: Vec<FileConflict>)
    ensures
        conflict_views(r@) == by_path(conflict_views(conflicts@)),
{
    let ghost all = conflict_views(conflicts@);
    let ghost mut n: int = 0;
    let mut out: Vec<FileConflict> = Vec::new();
    assert(conflict_views(out@) =~= Seq::<FileConflictView>::empty());
    assert(all.take(0) =~= Seq::<FileConflictView>::empty());
    for conflict in it: conflicts
        invariant
            it.seq() == conflicts@,
            it.index() == n,
            all == conflict_views(conflicts@),
            conflict_views(out@) == by_path(all.take(n)),
    {
        let ghost was = conflict_views(out@);
        let mut at: usize = out.len();
        while at > 0 && text::less(conflict.path.as_str(), out[at - 1].path.as_str())
            invariant
                at <= out.len(),
                was == conflict_views(out@),
                forall|j: int|
                    at <= j < was.len() ==> !text::text_le((#[trigger] was[j]).path, conflict.path@),
            decreases at,
        {
            proof {
                text::lemma_text_lt_total(was[at - 1].path, conflict.path@);
            }
            at -= 1;
        }
        proof {
            if at > 0 {
                text::lemma_text_lt_total(was[at - 1].path, conflict.path@);
            }
            lemma_insert_by_path(was, conflict@, at as int);
            assert(all.take(n + 1).drop_last() =~= all.take(n));
            assert(all.take(n + 1).last() == conflict@);
        }
        out.insert(at, conflict);
        proof {
            assert(conflict_views(out@) =~= was.insert(at as int, conflict@));
            n = n + 1;
        }
    }
    assert(all.take(n) =~= all);
    out
}

/// What blocks target `t`, in path order: other targets, and the filesystem.
pub open spec fn blocking(scene: Scene, t: int) -> Seq<FileConflictView> {
    by_path(
        own_conflicts(scene.targets, scene.released, t) + scene.path_conflicts(
            t,
            scene.new_paths(t),
        ),
    )
}

/// What blocks the first `n` targets, in target order and then in path order.
pub open spec fn all_conflicts(scene: Scene, n: int) -> Seq<FileConflictView>
    decreases n,
{
    if n <= 0 {
        Seq::empty()
    } else {
        all_conflicts(scene, n - 1) + blocking(scene, n - 1)
    }
}

/// Checks `targets` against each other and against the filesystem.
///
/// `removals` names the packages this transaction removes, which is what lets a path being vacated
/// stop being a conflict. Where one path of a target is blocked more than once, the targets come
/// before the filesystem, in their order.
pub fn check(
    fs: &Filesystem,
    owners: &Owners,
    targets: &Vec<Target>,
    removals: &Vec<String>,
    overwrite: &Overwrite,
    limits: &WalkLimits,
) -> (r: Check)
    ensures
        ({
            let scene = Scene {
                fs: *fs,
                packages: owners@,
                targets: targets@,
                removals: text::texts(removals@),
                released: overwrite@,
                limits: *limits,
            };
            let n = targets.len() as int;
            &&& conflict_views(r.conflicts@) == all_conflicts(scene, n)
            &&& forall|path: Seq<char>|
                #[trigger] r.skip_remove@.contains(path) <==> scene.handed_over(n).contains(path)
        }),
{
    let ghost scene = Scene {
        fs: *fs,
        packages: owners@,
        targets: targets@,
        removals: text::texts(removals@),
        released: overwrite@,
        limits: *limits,
    };
    let found = collision::collisions(targets);
    let index = filesystem::handovers(owners, targets);
    let mut conflicts: Vec<FileConflict> = Vec::new();
    let mut one = Check::default();
    let mut at: usize = 0;
    let mut t: usize = 0;
    assert(conflict_views(conflicts@) =~= Seq::<FileConflictView>::empty());
    while t < targets.len()
        invariant
            t <= targets.len(),
            scene == (Scene {
                fs: *fs,
                packages: owners@,
                targets: targets@,
                removals: text::texts(removals@),
                released: overwrite@,
                limits: *limits,
            }),
            collision::collision_views(found@) == collision::pairwise(
                lists(targets@),
                targets.len() as int,
            ),
            at == collision::pairwise(lists(targets@), t as int).len(),
            filesystem::handovers_of(index@, targets@, owners@),
            conflict_views(conflicts@) == all_conflicts(scene, t as int),
            forall|path: Seq<char>|
                #[trigger] one.skip_remove@.contains(path) <==> scene.handed_over(
                    t as int,
                ).contains(path),
        decreases targets.len() - t,
    {
        let (own, next) = of_target(targets, overwrite, &found, at, t);
        one.conflicts = own;
        filesystem::check_filesystem(
            fs,
            owners,
            targets,
            t,
            &index,
            removals,
            overwrite,
            limits,
            &mut one,
        );
        let mut unsorted: Vec<FileConflict> = Vec::new();
        std::mem::swap(&mut unsorted, &mut one.conflicts);
        let mut ordered = sort_by_path(unsorted);
        let ghost was = conflict_views(conflicts@);
        let ghost more = conflict_views(ordered@);
        conflicts.append(&mut ordered);
        proof {
            assert(conflict_views(conflicts@) =~= was + more);
            let c = scene.handed_over(t as int);
            let d = scene.path_handovers(t as int, scene.new_paths(t as int));
            assert forall|path: Seq<char>| (c + d).contains(path) <==> c.contains(path)
                || d.contains(path) by {
                vstd::seq_lib::lemma_seq_concat_contains_all_elements(c, d, path);
            }
        }
        at = next;
        t += 1;
    }
    Check { conflicts, skip_remove: one.skip_remove }
}

/// Builds the [`Target`] view of an already-installed package, for a removal step.
///
/// [`Target::version`] is left empty: conflict detection never reads it.
pub fn target_from_installed(name: &str, files: Vec<String>) -> (r: Target)
    ensures
        r.name@ == name@,
        r.version@.len() == 0,
        r.files.wf(),
        r.files@.to_multiset() == text::texts(files@).to_multiset(),
        r.backups@.len() == 0,
        r.install_script is None,
{
    Target {
        name: name.to_owned(),
        version: String::new(),
        files: FileList::new(files),
        backups: TextSet::new(),
        install_script: None,
    }
}

/// The paths of the last package named `name`.
pub open spec fn last_files_of(
    packages: Seq<owner::PackageView>,
    name: Seq<char>,
) -> Option<Seq<Seq<char>>>
    decreases packages.len(),
{
    if packages.len() == 0 {
        None
    } else if packages.last().name == name {
        Some(packages.last().files)
    } else {
        last_files_of(packages.drop_last(), name)
    }
}

/// The paths that a table of file lists has for `name`.
pub open spec fn table_files(table: Table<FileList>, name: Seq<char>) -> Option<Seq<Seq<char>>> {
    match table.spec_get(name) {
        Some(files) => Some(files@),
        None => None,
    }
}

/// The installed packages' file lists, keyed by name. Of two packages of one name the last stays.
pub fn installed_file_lists(owners: &Owners) -> (r: Table<FileList>)
    ensures
        forall|name: Seq<char>| #[trigger]
            table_files(r, name) == last_files_of(owners@, name),
{
    let mut out: Table<FileList> = Table::new();
    let packages = owners.all();
    let ghost views = owners@;
    let mut i: usize = 0;
    assert(views.take(0) =~= Seq::<owner::PackageView>::empty());
    while i < packages.len()
        invariant
            i <= packages.len(),
            views == owner::package_views(packages@),
            forall|name: Seq<char>| #[trigger]
                table_files(out, name) == last_files_of(views.take(i as int), name),
        decreases packages.len() - i,
    {
        let package = &packages[i];
        let ghost was = out;
        out.insert(package.name.clone(), package.files.clone());
        proof {
            assert(views.take(i + 1).drop_last() =~= views.take(i as int));
            assert(views.take(i + 1).last() == package@);
            assert forall|name: Seq<char>| #[trigger]
                table_files(out, name) == last_files_of(views.take(i + 1), name) by {
                assert(table_files(was, name) == last_files_of(views.take(i as int), name));
            }
        }
        i += 1;
    }
    assert(views.take(views.len() as int) =~= views);
    out
}

/// Two packages that share nothing but directories have no conflict between them.
pub proof fn shared_directories_never_conflict(a: Seq<Seq<char>>, b: Seq<Seq<char>>)
    requires
        forall|i: int| 0 <= i < a.len() ==> filelist::names_directory(#[trigger] a[i]),
        forall|i: int| 0 <= i < b.len() ==> filelist::names_directory(#[trigger] b[i]),
    ensures
        filelist::intersection(a, b) == Seq::<Seq<char>>::empty(),
    decreases a.len(),
{
    reveal(Seq::filter);
    if a.len() > 0 {
        shared_directories_never_conflict(a.drop_last(), b);
        assert(filelist::names_directory(a[a.len() - 1]));
        assert(!filelist::collides(a.last(), b));
    } else {
        assert(filelist::intersection(a, b) =~= Seq::<Seq<char>>::empty());
    }
}

/// Putting a conflict in its place keeps path order.
proof fn lemma_insert_keeps_order(s: Seq<FileConflictView>, c: FileConflictView)
    requires
        in_path_order(s),
    ensures
        in_path_order(insert_by_path(s, c)),
        insert_by_path(s, c).to_multiset() == s.to_multiset().insert(c),
        insert_by_path(s, c).len() == s.len() + 1,
        forall|k: int|
            0 <= k < insert_by_path(s, c).len() ==> (#[trigger] insert_by_path(s, c)[k]) == c
                || s.contains(insert_by_path(s, c)[k]),
    decreases s.len(),
{
    broadcast use vstd::seq_lib::group_to_multiset_ensures;

    let r = insert_by_path(s, c);
    if s.len() == 0 || text::text_le(s.last().path, c.path) {
        assert(r == s.push(c));
        assert forall|i: int, j: int| 0 <= i < j < r.len() implies text::text_le(
            (#[trigger] r[i]).path,
            (#[trigger] r[j]).path,
        ) by {
            if j == s.len() && i < s.len() - 1 {
                assert(text::text_le(s[i].path, s[s.len() - 1].path));
                crate::order::lemma_texts_chain(s[i].path, s.last().path, c.path);
                text::lemma_text_lt_total(s[i].path, c.path);
                text::lemma_text_lt_total(s.last().path, c.path);
                text::lemma_text_lt_total(s[i].path, s.last().path);
            }
        }
        assert forall|k: int| 0 <= k < r.len() implies (#[trigger] r[k]) == c || s.contains(r[k]) by {
            if k < s.len() {
                assert(s[k] == r[k]);
            }
        }
    } else {
        let t = s.drop_last();
        let inner = insert_by_path(t, c);
        lemma_insert_keeps_order(t, c);
        assert(r == inner.push(s.last()));
        text::lemma_text_lt_total(s.last().path, c.path);
        assert(s =~= t.push(s.last()));
        assert(r.to_multiset() =~= s.to_multiset().insert(c));
        assert forall|k: int| 0 <= k < inner.len() implies text::text_le(
            (#[trigger] inner[k]).path,
            s.last().path,
        ) by {
            if inner[k] != c {
                let m = choose|m: int| 0 <= m < t.len() && t[m] == inner[k];
                assert(text::text_le(s[m].path, s[s.len() - 1].path));
            }
        }
        assert forall|i: int, j: int| 0 <= i < j < r.len() implies text::text_le(
            (#[trigger] r[i]).path,
            (#[trigger] r[j]).path,
        ) by {
            if j < inner.len() {
                assert(text::text_le(inner[i].path, inner[j].path));
            } else {
                assert(r[i] == inner[i]);
            }
        }
        assert forall|k: int| 0 <= k < r.len() implies (#[trigger] r[k]) == c || s.contains(r[k]) by {
            if k < inner.len() {
                assert(r[k] == inner[k]);
                if r[k] != c {
                    let m = choose|m: int| 0 <= m < t.len() && t[m] == inner[k];
                    assert(s[m] == r[k]);
                }
            } else {
                assert(s[s.len() - 1] == r[k]);
            }
        }
    }
}

/// No path comes before an earlier one.
pub open spec fn in_path_order(s: Seq<FileConflictView>) -> bool {
    forall|i: int, j: int|
        0 <= i < j < s.len() ==> text::text_le((#[trigger] s[i]).path, (#[trigger] s[j]).path)
}

proof fn lemma_by_path(s: Seq<FileConflictView>)
    ensures
        in_path_order(by_path(s)),
        by_path(s).to_multiset() == s.to_multiset(),
    decreases s.len(),
{
    broadcast use vstd::seq_lib::group_to_multiset_ensures;

    if s.len() > 0 {
        lemma_by_path(s.drop_last());
        lemma_insert_keeps_order(by_path(s.drop_last()), s.last());
        assert(s =~= s.drop_last().push(s.last()));
    } else {
        assert(by_path(s) =~= s);
    }
}

/// What blocks a target is listed in path order, and nothing is lost in putting it so.
pub proof fn what_blocks_a_target_is_in_path_order(scene: Scene, t: int)
    ensures
        in_path_order(blocking(scene, t)),
        blocking(scene, t).to_multiset() == (own_conflicts(scene.targets, scene.released, t)
            + scene.path_conflicts(t, scene.new_paths(t))).to_multiset(),
{
    lemma_by_path(
        own_conflicts(scene.targets, scene.released, t) + scene.path_conflicts(
            t,
            scene.new_paths(t),
        ),
    );
}

/// Whether a path is one that some target ships, with or without the `/` that ends a directory.
pub open spec fn examined(targets: Seq<Target>, path: Seq<char>) -> bool {
    exists|t: int, i: int|
        0 <= t < targets.len() && 0 <= i < targets[t].files@.len() && (path == (
        #[trigger] targets[t].files@[i]) || path == filelist::stripped(targets[t].files@[i]))
}

/// Whether two answers to which paths are released agree on the paths that targets ship.
pub open spec fn agree(targets: Seq<Target>, a: Released, b: Released) -> bool {
    forall|path: Seq<char>| examined(targets, path) ==> #[trigger] a(path) == b(path)
}

/// Whether target `t` ships every path of a list.
spec fn shipped(targets: Seq<Target>, t: int, paths: Seq<Seq<char>>) -> bool {
    forall|i: int| 0 <= i < paths.len() ==> targets[t].files@.contains(#[trigger] paths[i])
}

proof fn lemma_skip_keeps_shipped(
    targets: Seq<Target>,
    t: int,
    paths: Seq<Seq<char>>,
    prefix: Seq<char>,
)
    requires
        shipped(targets, t, paths),
    ensures
        shipped(targets, t, filesystem::skip_below(paths, prefix)),
    decreases paths.len(),
{
    if paths.len() > 0 && text::starts_with(paths[0], prefix) {
        assert(shipped(targets, t, paths.skip(1))) by {
            assert forall|i: int| 0 <= i < paths.skip(1).len() implies targets[t].files@.contains(
                #[trigger] paths.skip(1)[i],
            ) by {
                assert(paths.skip(1)[i] == paths[i + 1]);
            }
        }
        lemma_skip_keeps_shipped(targets, t, paths.skip(1), prefix);
    }
}

/// What blocks the paths of one target does not depend on other answers.
proof fn lemma_paths_agree(a: Scene, b: Scene, t: int, paths: Seq<Seq<char>>)
    requires
        b == (Scene { released: b.released, ..a }),
        agree(a.targets, a.released, b.released),
        0 <= t < a.targets.len(),
        shipped(a.targets, t, paths),
    ensures
        a.path_conflicts(t, paths) == b.path_conflicts(t, paths),
        a.path_handovers(t, paths) == b.path_handovers(t, paths),
    decreases paths.len(),
{
    if paths.len() > 0 {
        let first = paths[0];
        let rest = paths.skip(1);
        assert(a.targets[t].files@.contains(first));
        let i = choose|i: int| 0 <= i < a.targets[t].files@.len() && a.targets[t].files@[i] == first;
        assert(examined(a.targets, filelist::stripped(a.targets[t].files@[i])));
        assert(a.context(t, first) == b.context(t, first));
        assert(shipped(a.targets, t, rest)) by {
            assert forall|i: int| 0 <= i < rest.len() implies a.targets[t].files@.contains(
                #[trigger] rest[i],
            ) by {
                assert(rest[i] == paths[i + 1]);
            }
        }
        lemma_skip_keeps_shipped(a.targets, t, rest, first);
        filesystem::lemma_skip_below(rest, first);
        lemma_paths_agree(a, b, t, a.after(t, paths));
    }
}

/// What a filter keeps of a list is in the list.
proof fn lemma_filter_within<A>(s: Seq<A>, p: spec_fn(A) -> bool)
    ensures
        forall|i: int| 0 <= i < s.filter(p).len() ==> s.contains(#[trigger] s.filter(p)[i]),
    decreases s.len(),
{
    reveal(Seq::filter);
    if s.len() > 0 {
        let fewer = s.drop_last();
        let kept = fewer.filter(p);
        lemma_filter_within(fewer, p);
        assert forall|i: int| 0 <= i < s.filter(p).len() implies s.contains(
            #[trigger] s.filter(p)[i],
        ) by {
            if i < kept.len() {
                assert(s.filter(p)[i] == kept[i]);
                let k = choose|k: int| 0 <= k < fewer.len() && fewer[k] == kept[i];
                assert(s[k] == kept[i]);
            } else {
                assert(s[s.len() - 1] == s.filter(p)[i]);
            }
        }
    }
}

/// Filters that agree on what a list holds keep the same.
proof fn lemma_filters_agree<A>(s: Seq<A>, p: spec_fn(A) -> bool, q: spec_fn(A) -> bool)
    requires
        forall|i: int| 0 <= i < s.len() ==> p(#[trigger] s[i]) == q(s[i]),
    ensures
        s.filter(p) == s.filter(q),
    decreases s.len(),
{
    reveal(Seq::filter);
    if s.len() > 0 {
        let fewer = s.drop_last();
        assert forall|i: int| 0 <= i < fewer.len() implies p(#[trigger] fewer[i]) == q(
            fewer[i],
        ) by {
            assert(fewer[i] == s[i]);
        }
        lemma_filters_agree(fewer, p, q);
        assert(p(s[s.len() - 1]) == q(s[s.len() - 1]));
    }
}

/// The paths of a target's collisions are its own.
proof fn lemma_later_paths(files: Seq<Seq<Seq<char>>>, t: int, n: int)
    requires
        0 <= t < files.len(),
        n <= files.len(),
    ensures
        forall|k: int|
            0 <= k < collision::against_later(files, t, n).len() ==> files[t].contains(
                (#[trigger] collision::against_later(files, t, n)[k]).2,
            ),
    decreases n - t,
{
    if n > t + 1 {
        lemma_later_paths(files, t, n - 1);
        let a = collision::against_later(files, t, n - 1);
        let b = collision::against(files, t, n - 1);
        let hit = |entry: Seq<char>| filelist::collides(entry, files[n - 1]);
        lemma_filter_within(files[t], hit);
        assert forall|k: int| 0 <= k < (a + b).len() implies files[t].contains(
            (#[trigger] (a + b)[k]).2,
        ) by {
            if k < a.len() {
                assert((a + b)[k] == a[k]);
            } else {
                let m = k - a.len();
                assert((a + b)[k] == b[m]);
                assert(b[m].2 == filelist::intersection(files[t], files[n - 1])[m]);
                assert(files[t].contains(files[t].filter(hit)[m]));
            }
        }
    }
}

proof fn lemma_own_agree(targets: Seq<Target>, a: Released, b: Released, t: int)
    requires
        agree(targets, a, b),
        0 <= t < targets.len(),
    ensures
        own_conflicts(targets, a, t) == own_conflicts(targets, b, t),
{
    let files = lists(targets);
    let pairs = collision::against_later(files, t, targets.len() as int);
    let p = |c: collision::Pair| stands(targets, a, c);
    let q = |c: collision::Pair| stands(targets, b, c);
    lemma_later_paths(files, t, targets.len() as int);
    assert forall|k: int| 0 <= k < pairs.len() implies p(#[trigger] pairs[k]) == q(pairs[k]) by {
        let path = pairs[k].2;
        assert(files[t].contains(path));
        let i = choose|i: int| 0 <= i < files[t].len() && files[t][i] == path;
        assert(targets[t].files@[i] == path);
        assert(examined(targets, path));
    }
    lemma_filters_agree(pairs, p, q);
}

/// What the user released matters only for the paths that targets ship: a check gives the same
/// result for every answer that agrees on those, however it was come by.
pub proof fn only_shipped_paths_are_asked_about(scene: Scene, released: Released, n: int)
    requires
        agree(scene.targets, scene.released, released),
        n <= scene.targets.len(),
    ensures
        all_conflicts(scene, n) == all_conflicts(Scene { released, ..scene }, n),
        scene.handed_over(n) == (Scene { released, ..scene }).handed_over(n),
    decreases n,
{
    if n > 0 {
        let other = Scene { released, ..scene };
        let t = n - 1;
        only_shipped_paths_are_asked_about(scene, released, t);
        lemma_own_agree(scene.targets, scene.released, released, t);
        let files = scene.targets[t].files@;
        let paths = scene.new_paths(t);
        assert(shipped(scene.targets, t, paths)) by {
            if let Some(old) = owner::files_of(scene.packages, scene.targets[t].name@) {
                let keep = |entry: Seq<char>| !old.contains(entry);
                lemma_filter_within(files, keep);
                assert(paths == files.filter(keep));
                assert forall|i: int| 0 <= i < paths.len() implies files.contains(
                    #[trigger] paths[i],
                ) by {
                    assert(files.contains(files.filter(keep)[i]));
                }
            } else {
                assert forall|i: int| 0 <= i < paths.len() implies files.contains(
                    #[trigger] paths[i],
                ) by {}
            }
        }
        lemma_paths_agree(scene, other, t, paths);
    }
}

} // verus!
