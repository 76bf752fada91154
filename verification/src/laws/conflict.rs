//! What a check for file conflicts finds.

use vstd::prelude::*;

use crate::conflict::decision::VerdictView;
use crate::conflict::filelist;
use crate::conflict::filesystem;
use crate::conflict::filesystem::{Filesystem, Scene};
use crate::conflict::{
    all_conflicts, blocking, collision, lists, own_conflicts, target_conflicts,
    what_blocks_a_target_is_in_path_order, BlockerView, FileConflictView,
};
use crate::extract::decision::Existing;
use crate::laws::lists::{
    lemma_add_holds, lemma_filter_holds, lemma_push_holds, lemma_skip_holds,
};
use crate::owner;
use crate::owner::PackageView;
use crate::text;

verus! {

/// Whether a path is spelled with the `/` of a directory.
pub open spec fn slashed(path: Seq<char>) -> bool {
    path.len() > 0 && path[path.len() - 1] == '/'
}

/// The place a path names, without the `/` of a directory.
pub open spec fn place(path: Seq<char>) -> Seq<char> {
    if slashed(path) {
        path.take(path.len() - 1)
    } else {
        path
    }
}

/// Whether package `j` is the first of a name.
pub open spec fn first_named(packages: Seq<PackageView>, name: Seq<char>, j: int) -> bool {
    &&& 0 <= j < packages.len()
    &&& packages[j].name == name
    &&& forall|k: int| 0 <= k < j ==> (#[trigger] packages[k]).name != name
}

/// Whether the installed package of a name lists a path, spelled exactly so.
pub open spec fn lists_path(packages: Seq<PackageView>, name: Seq<char>, path: Seq<char>) -> bool {
    exists|j: int| #[trigger] first_named(packages, name, j) && packages[j].files.contains(path)
}

/// Whether any installed package lists a path.
pub open spec fn anyone_lists(packages: Seq<PackageView>, path: Seq<char>) -> bool {
    exists|j: int| 0 <= j < packages.len() && (#[trigger] packages[j]).files.contains(path)
}

/// Whether a package that the transaction removes lists a path.
pub open spec fn removal_lists(scene: Scene, path: Seq<char>) -> bool {
    exists|i: int|
        0 <= i < scene.removals.len() && lists_path(
            scene.packages,
            #[trigger] scene.removals[i],
            path,
        )
}

/// Whether the installed version of a target of another name lists a path.
pub open spec fn other_target_lists(scene: Scene, name: Seq<char>, path: Seq<char>) -> bool {
    exists|u: int|
        0 <= u < scene.targets.len() && (#[trigger] scene.targets[u]).name@ != name && lists_path(
            scene.packages,
            scene.targets[u].name@,
            path,
        )
}

proof fn lemma_place(path: Seq<char>)
    ensures
        filelist::stripped(path) == place(path),
        filelist::names_directory(path) == slashed(path),
{
    if slashed(path) {
        assert(path.drop_last() =~= path.take(path.len() - 1));
    }
}

proof fn lemma_lists(packages: Seq<PackageView>, name: Seq<char>, path: Seq<char>)
    ensures
        filesystem::owner_holds(packages, name, path) == lists_path(packages, name, path),
        lists_path(packages, name, path) <==> (owner::files_of(packages, name) matches Some(files)
            && files.contains(path)),
{
    owner::lemma_index_of_name(packages, name);
    let i = owner::index_of_name(packages, name);
    if i < packages.len() {
        assert(first_named(packages, name, i));
    }
    if lists_path(packages, name, path) {
        let j = choose|j: int| #[trigger]
            first_named(packages, name, j) && packages[j].files.contains(path);
        if i < j {
            assert(packages[i].name != name);
        }
        if j < i {
            assert(packages[j].name != name);
        }
    }
}

proof fn lemma_anyone(packages: Seq<PackageView>, path: Seq<char>)
    ensures
        owner::owners_of(packages, path).len() > 0 <==> anyone_lists(packages, path),
    decreases packages.len(),
{
    if packages.len() > 0 {
        let fewer = packages.drop_last();
        lemma_anyone(fewer, path);
        if anyone_lists(fewer, path) {
            let j = choose|j: int| 0 <= j < fewer.len() && (#[trigger] fewer[j]).files.contains(path);
            assert(packages[j].files.contains(path));
        }
        if anyone_lists(packages, path) {
            let j = choose|j: int|
                0 <= j < packages.len() && (#[trigger] packages[j]).files.contains(path);
            if j < fewer.len() {
                assert(fewer[j].files.contains(path));
            }
        }
        if packages.last().files.contains(path) {
            assert(packages[packages.len() - 1].files.contains(path));
        }
    }
}

proof fn lemma_removal(scene: Scene, path: Seq<char>)
    ensures
        scene.removed(path) == removal_lists(scene, path),
{
    if scene.removed(path) {
        let i = choose|i: int|
            0 <= i < scene.removals.len() && filesystem::owner_holds(
                scene.packages,
                #[trigger] scene.removals[i],
                path,
            );
        lemma_lists(scene.packages, scene.removals[i], path);
    }
    if removal_lists(scene, path) {
        let i = choose|i: int|
            0 <= i < scene.removals.len() && lists_path(
                scene.packages,
                #[trigger] scene.removals[i],
                path,
            );
        lemma_lists(scene.packages, scene.removals[i], path);
    }
}

proof fn lemma_other(scene: Scene, name: Seq<char>, path: Seq<char>, from: int)
    requires
        0 <= from <= scene.targets.len(),
    ensures
        filesystem::previous_owner(scene.targets, scene.packages, path, name, from) is Some <==> (
        exists|u: int|
            from <= u < scene.targets.len() && (#[trigger] scene.targets[u]).name@ != name
                && lists_path(scene.packages, scene.targets[u].name@, path)),
        filesystem::previous_owner(scene.targets, scene.packages, path, name, from) matches Some(
            owner,
        ) ==> exists|u: int|
            from <= u < scene.targets.len() && (#[trigger] scene.targets[u]).name@ == owner
                && owner != name && lists_path(scene.packages, owner, path) && forall|v: int|
                from <= v < u ==> (#[trigger] scene.targets[v]).name@ == name || !lists_path(
                    scene.packages,
                    scene.targets[v].name@,
                    path,
                ),
    decreases scene.targets.len() - from,
{
    if from < scene.targets.len() {
        lemma_lists(scene.packages, scene.targets[from].name@, path);
        lemma_other(scene, name, path, from + 1);
        let here = scene.targets[from].name@ != name && lists_path(
            scene.packages,
            scene.targets[from].name@,
            path,
        );
        if !here {
            if let Some(owner) = filesystem::previous_owner(
                scene.targets,
                scene.packages,
                path,
                name,
                from + 1,
            ) {
                let u = choose|u: int|
                    from + 1 <= u < scene.targets.len() && (#[trigger] scene.targets[u]).name@
                        == owner && owner != name && lists_path(scene.packages, owner, path)
                        && forall|v: int|
                        from + 1 <= v < u ==> (#[trigger] scene.targets[v]).name@ == name
                            || !lists_path(scene.packages, scene.targets[v].name@, path);
                assert(scene.targets[u].name@ == owner);
            }
        }
    }
}

/// A path is in the way exactly where something is there and nothing accounts for it: neither a
/// directory that the package ships as one, nor a file of its own that becomes a directory, nor a
/// removed package, nor a target that gives the path up, nor a directory that empties, nor the
/// adoption of an unowned backup file, nor the user.
pub proof fn a_path_is_in_the_way(scene: Scene, t: int, path: Seq<char>)
    requires
        0 <= t < scene.targets.len(),
    ensures
        ({
            let at = place(path);
            let name = scene.targets[t].name@;
            let existing = scene.fs.probe(at).existing;
            scene.verdict(t, path) is Conflict <==> {
                &&& existing != Existing::Absent
                &&& !(slashed(path) && scene.fs.probe(at).resolves_to_directory)
                &&& !(slashed(path) && lists_path(scene.packages, name, at))
                &&& !removal_lists(scene, at)
                &&& !other_target_lists(scene, name, at)
                &&& !(existing == Existing::Directory && !slashed(path) && filesystem::vacated(
                    scene.fs,
                    scene.packages,
                    at,
                    name,
                    scene.removals,
                    scene.limits,
                ))
                &&& !(scene.targets[t].backups@.contains(at) && !anyone_lists(scene.packages, at))
                &&& !(existing != Existing::Directory && (scene.released)(at))
            }
        }),
{
    let at = place(path);
    let name = scene.targets[t].name@;
    lemma_place(path);
    lemma_lists(scene.packages, name, at);
    lemma_removal(scene, at);
    lemma_other(scene, name, at, 0);
    lemma_anyone(scene.packages, at);
}

/// A path changes hands where something is there that no removed package lists and the installed
/// version of another target does, unless a directory is shipped over one or over a file of the
/// same package. The first such target, in their order, gives it up.
pub proof fn a_path_changes_hands(scene: Scene, t: int, path: Seq<char>)
    requires
        0 <= t < scene.targets.len(),
    ensures
        ({
            let at = place(path);
            let name = scene.targets[t].name@;
            &&& scene.verdict(t, path) is ChangesOwner <==> {
                &&& scene.fs.probe(at).existing != Existing::Absent
                &&& !(slashed(path) && scene.fs.probe(at).resolves_to_directory)
                &&& !(slashed(path) && lists_path(scene.packages, name, at))
                &&& !removal_lists(scene, at)
                &&& other_target_lists(scene, name, at)
            }
            &&& scene.verdict(t, path) matches VerdictView::ChangesOwner { from } ==> exists|u: int|
                0 <= u < scene.targets.len() && (#[trigger] scene.targets[u]).name@ == from && from
                    != name && lists_path(scene.packages, from, at) && forall|v: int|
                    0 <= v < u ==> (#[trigger] scene.targets[v]).name@ == name || !lists_path(
                        scene.packages,
                        scene.targets[v].name@,
                        at,
                    )
        }),
{
    let at = place(path);
    let name = scene.targets[t].name@;
    lemma_place(path);
    lemma_lists(scene.packages, name, at);
    lemma_removal(scene, at);
    lemma_other(scene, name, at, 0);
}

/// Whether a covering verdict on a directory of a list speaks for a path below it too.
pub open spec fn spoken_for(scene: Scene, t: int, paths: Seq<Seq<char>>, path: Seq<char>) -> bool {
    exists|k: int|
        0 <= k < paths.len() && slashed(#[trigger] paths[k]) && paths[k] != path
            && text::starts_with(path, paths[k]) && (scene.verdict(t, paths[k])
            is FileBecomesDirectory || scene.verdict(t, paths[k]) is RemovedByTransaction
            || scene.verdict(t, paths[k]) is ChangesOwner)
}

/// The conflict with the filesystem at a path.
pub open spec fn blocked_at(
    scene: Scene,
    t: int,
    path: Seq<char>,
    owner: Option<Seq<char>>,
) -> FileConflictView {
    FileConflictView {
        package: scene.targets[t].name@,
        path: place(path),
        blocker: BlockerView::Filesystem { owner },
    }
}

proof fn lemma_skip_below(paths: Seq<Seq<char>>, prefix: Seq<char>, path: Seq<char>)
    ensures
        filesystem::skip_below(paths, prefix).contains(path) ==> paths.contains(path),
        paths.contains(path) && !text::starts_with(path, prefix) ==> filesystem::skip_below(
            paths,
            prefix,
        ).contains(path),
    decreases paths.len(),
{
    if paths.len() > 0 && text::starts_with(paths[0], prefix) {
        lemma_skip_holds(paths, path);
        lemma_skip_below(paths.skip(1), prefix, path);
    }
}

proof fn lemma_after(scene: Scene, t: int, paths: Seq<Seq<char>>, path: Seq<char>)
    requires
        paths.len() > 0,
    ensures
        scene.after(t, paths).contains(path) ==> paths.contains(path),
        paths.contains(path) && path != paths[0] && !spoken_for(scene, t, paths, path)
            ==> scene.after(t, paths).contains(path),
        scene.after(t, paths).len() < paths.len(),
{
    lemma_place(paths[0]);
    lemma_skip_holds(paths, path);
    lemma_skip_below(paths.skip(1), paths[0], path);
    filesystem::lemma_skip_below(paths.skip(1), paths[0]);
}

proof fn lemma_paths_found(scene: Scene, t: int, paths: Seq<Seq<char>>, path: Seq<char>)
    requires
        0 <= t < scene.targets.len(),
        paths.contains(path),
        !spoken_for(scene, t, paths, path),
    ensures
        scene.verdict(t, path) is Conflict ==> exists|owner: Option<Seq<char>>|
            scene.path_conflicts(t, paths).contains(#[trigger] blocked_at(scene, t, path, owner)),
        scene.verdict(t, path) is ChangesOwner ==> scene.path_handovers(t, paths).contains(
            place(path),
        ),
    decreases paths.len(),
{
    let rest = scene.after(t, paths);
    lemma_after(scene, t, paths, path);
    lemma_place(paths[0]);
    let owner = filesystem::holder(scene.packages, place(paths[0]));
    let head = blocked_at(scene, t, paths[0], owner);
    if path == paths[0] {
        if scene.verdict(t, path) is Conflict {
            assert(scene.path_conflicts(t, paths)[0] == head);
        }
        if scene.verdict(t, path) is ChangesOwner {
            assert(scene.path_handovers(t, paths)[0] == place(path));
        }
    } else {
        if spoken_for(scene, t, rest, path) {
            let k = choose|k: int|
                0 <= k < rest.len() && slashed(#[trigger] rest[k]) && rest[k] != path
                    && text::starts_with(path, rest[k]) && (scene.verdict(t, rest[k])
                    is FileBecomesDirectory || scene.verdict(t, rest[k]) is RemovedByTransaction
                    || scene.verdict(t, rest[k]) is ChangesOwner);
            lemma_after(scene, t, paths, rest[k]);
            let m = choose|m: int| 0 <= m < paths.len() && paths[m] == rest[k];
            assert(slashed(paths[m]));
        }
        lemma_paths_found(scene, t, rest, path);
        if scene.verdict(t, path) is Conflict {
            let owner = choose|owner: Option<Seq<char>>|
                scene.path_conflicts(t, rest).contains(
                    #[trigger] blocked_at(scene, t, path, owner),
                );
            let c = blocked_at(scene, t, path, owner);
            lemma_add_holds(seq![head], scene.path_conflicts(t, rest), c);
            assert(scene.path_conflicts(t, paths).contains(c));
        }
        if scene.verdict(t, path) is ChangesOwner {
            lemma_add_holds(seq![place(paths[0])], scene.path_handovers(t, rest), place(path));
        }
    }
}

/// Who a list of packages says owns what is at a path: the first package that lists it, or else
/// the first that lists it as a directory.
pub open spec fn is_owner(
    packages: Seq<PackageView>,
    at: Seq<char>,
    owner: Option<Seq<char>>,
) -> bool {
    match owner {
        Some(name) => exists|j: int|
            0 <= j < packages.len() && (#[trigger] packages[j]).name == name && {
                ||| packages[j].files.contains(at) && forall|k: int|
                    0 <= k < j ==> !(#[trigger] packages[k]).files.contains(at)
                ||| packages[j].files.contains(at.push('/')) && !anyone_lists(packages, at)
                    && forall|k: int|
                    0 <= k < j ==> !(#[trigger] packages[k]).files.contains(at.push('/'))
            },
        None => !anyone_lists(packages, at) && !anyone_lists(packages, at.push('/')),
    }
}

/// Where the first owner of a path stands in a list of packages.
proof fn lemma_first_owner(packages: Seq<PackageView>, path: Seq<char>) -> (j: int)
    requires
        owner::owners_of(packages, path).len() > 0,
    ensures
        0 <= j < packages.len(),
        packages[j].files.contains(path),
        packages[j].name == owner::owners_of(packages, path)[0],
        forall|k: int| 0 <= k < j ==> !(#[trigger] packages[k]).files.contains(path),
    decreases packages.len(),
{
    let fewer = packages.drop_last();
    if owner::owners_of(fewer, path).len() > 0 {
        let j = lemma_first_owner(fewer, path);
        assert forall|k: int| 0 <= k < j implies !(#[trigger] packages[k]).files.contains(path) by {
            assert(fewer[k] == packages[k]);
        }
        j
    } else {
        lemma_anyone(fewer, path);
        assert forall|k: int| 0 <= k < packages.len() - 1 implies !(
        #[trigger] packages[k]).files.contains(path) by {
            assert(fewer[k] == packages[k]);
        }
        packages.len() - 1
    }
}

proof fn lemma_holder(packages: Seq<PackageView>, at: Seq<char>)
    ensures
        is_owner(packages, at, filesystem::holder(packages, at)),
{
    lemma_anyone(packages, at);
    lemma_anyone(packages, at.push('/'));
    if owner::owners_of(packages, at).len() > 0 {
        let j = lemma_first_owner(packages, at);
        assert(packages[j].name == filesystem::holder(packages, at)->0);
    } else if owner::owners_of(packages, at.push('/')).len() > 0 {
        let j = lemma_first_owner(packages, at.push('/'));
        assert(packages[j].name == filesystem::holder(packages, at)->0);
    }
}

proof fn lemma_paths_sound(scene: Scene, t: int, paths: Seq<Seq<char>>, c: FileConflictView)
    requires
        0 <= t < scene.targets.len(),
        scene.path_conflicts(t, paths).contains(c),
    ensures
        exists|path: Seq<char>, owner: Option<Seq<char>>|
            paths.contains(path) && scene.verdict(t, path) is Conflict && c
                == #[trigger] blocked_at(scene, t, path, owner) && is_owner(
                scene.packages,
                place(path),
                owner,
            ),
    decreases paths.len(),
{
    if paths.len() > 0 {
        let rest = scene.after(t, paths);
        lemma_place(paths[0]);
        let owner = filesystem::holder(scene.packages, place(paths[0]));
        let head = blocked_at(scene, t, paths[0], owner);
        lemma_add_holds(seq![head], scene.path_conflicts(t, rest), c);
        lemma_after(scene, t, paths, paths[0]);
        if scene.path_conflicts(t, rest).contains(c) {
            lemma_paths_sound(scene, t, rest, c);
            let (path, owner) = choose|path: Seq<char>, owner: Option<Seq<char>>|
                rest.contains(path) && scene.verdict(t, path) is Conflict && c
                    == #[trigger] blocked_at(scene, t, path, owner) && is_owner(
                    scene.packages,
                    place(path),
                    owner,
                );
            lemma_after(scene, t, paths, path);
            assert(c == blocked_at(scene, t, path, owner));
        } else {
            lemma_holder(scene.packages, place(paths[0]));
            assert(seq![head].contains(c));
            assert(c == head);
            assert(paths.contains(paths[0]));
        }
    }
}

proof fn lemma_handed_sound(scene: Scene, t: int, paths: Seq<Seq<char>>, at: Seq<char>)
    requires
        scene.path_handovers(t, paths).contains(at),
    ensures
        exists|path: Seq<char>| #[trigger]
            paths.contains(path) && scene.verdict(t, path) is ChangesOwner && at == place(path),
    decreases paths.len(),
{
    if paths.len() > 0 {
        let rest = scene.after(t, paths);
        lemma_place(paths[0]);
        lemma_add_holds(seq![place(paths[0])], scene.path_handovers(t, rest), at);
        lemma_after(scene, t, paths, paths[0]);
        if scene.path_handovers(t, rest).contains(at) {
            lemma_handed_sound(scene, t, rest, at);
            let path = choose|path: Seq<char>| #[trigger]
                rest.contains(path) && scene.verdict(t, path) is ChangesOwner && at == place(path);
            lemma_after(scene, t, paths, path);
            assert(paths.contains(path));
        } else {
            assert(paths.contains(paths[0]));
        }
    }
}

/// The paths of a target that are looked at: those its installed version does not list.
proof fn lemma_new_paths(scene: Scene, t: int, path: Seq<char>)
    requires
        0 <= t < scene.targets.len(),
    ensures
        scene.new_paths(t).contains(path) <==> scene.targets[t].files@.contains(path)
            && !lists_path(scene.packages, scene.targets[t].name@, path),
{
    lemma_lists(scene.packages, scene.targets[t].name@, path);
    if let Some(old) = owner::files_of(scene.packages, scene.targets[t].name@) {
        lemma_filter_holds(
            scene.targets[t].files@,
            |entry: Seq<char>| !old.contains(entry),
            path,
        );
    }
}

proof fn lemma_blocking(scene: Scene, t: int, c: FileConflictView)
    ensures
        blocking(scene, t).contains(c) <==> own_conflicts(
            scene.targets,
            scene.released,
            t,
        ).contains(c) || scene.path_conflicts(t, scene.new_paths(t)).contains(c),
{
    broadcast use vstd::seq_lib::group_to_multiset_ensures;

    let own = own_conflicts(scene.targets, scene.released, t);
    let found = scene.path_conflicts(t, scene.new_paths(t));
    what_blocks_a_target_is_in_path_order(scene, t);
    lemma_add_holds(own, found, c);
    assert(blocking(scene, t).to_multiset().count(c) == (own + found).to_multiset().count(c));
}

proof fn lemma_all(scene: Scene, n: int, c: FileConflictView)
    requires
        n <= scene.targets.len(),
    ensures
        all_conflicts(scene, n).contains(c) <==> exists|t: int|
            0 <= t < n && (#[trigger] blocking(scene, t)).contains(c),
    decreases n,
{
    if n > 0 {
        lemma_all(scene, n - 1, c);
        lemma_add_holds(all_conflicts(scene, n - 1), blocking(scene, n - 1), c);
        if all_conflicts(scene, n - 1).contains(c) {
            let t = choose|t: int| 0 <= t < n - 1 && (#[trigger] blocking(scene, t)).contains(c);
            assert(0 <= t < n && blocking(scene, t).contains(c));
        }
    }
}

/// Whether two packages ship one place, and not both as a directory.
pub open spec fn clash(path: Seq<char>, other: Seq<char>) -> bool {
    place(path) == place(other) && !(slashed(path) && slashed(other))
}

/// The conflict of two targets at a path.
pub open spec fn clash_at(scene: Scene, s: int, t: int, path: Seq<char>) -> FileConflictView {
    FileConflictView {
        package: scene.targets[s].name@,
        path,
        blocker: BlockerView::Target { other: scene.targets[t].name@ },
    }
}

/// Whether targets `s` and `t`, in this order, both ship the place of a path of the first, and the
/// user did not release it. The user's word counts only where both spell the path alike.
pub open spec fn both_ship(scene: Scene, s: int, t: int, path: Seq<char>) -> bool {
    &&& 0 <= s < t < scene.targets.len()
    &&& scene.targets[s].files@.contains(path)
    &&& exists|other: Seq<char>| #[trigger]
        scene.targets[t].files@.contains(other) && clash(path, other)
    &&& !((scene.released)(path) && scene.targets[t].files@.contains(path))
}

proof fn lemma_collides(path: Seq<char>, other: Seq<Seq<char>>)
    ensures
        filelist::collides(path, other) <==> exists|q: Seq<char>| #[trigger]
            other.contains(q) && clash(path, q),
{
    lemma_place(path);
    if filelist::collides(path, other) {
        let j = choose|j: int|
            0 <= j < other.len() && filelist::stripped(#[trigger] other[j]) == filelist::stripped(
                path,
            ) && !(filelist::names_directory(path) && filelist::names_directory(other[j]));
        lemma_place(other[j]);
        assert(other.contains(other[j]));
    }
    if exists|q: Seq<char>| #[trigger] other.contains(q) && clash(path, q) {
        let q = choose|q: Seq<char>| #[trigger] other.contains(q) && clash(path, q);
        let j = choose|j: int| 0 <= j < other.len() && other[j] == q;
        lemma_place(other[j]);
        assert(filelist::stripped(other[j]) == filelist::stripped(path));
    }
}

proof fn lemma_against(files: Seq<Seq<Seq<char>>>, s: int, t: int, pair: collision::Pair)
    requires
        0 <= s < files.len(),
        0 <= t < files.len(),
    ensures
        collision::against(files, s, t).contains(pair) <==> pair.0 == s && pair.1 == t
            && files[s].contains(pair.2) && filelist::collides(pair.2, files[t]),
{
    let hit = |entry: Seq<char>| filelist::collides(entry, files[t]);
    let kept = filelist::intersection(files[s], files[t]);
    let pairs = collision::against(files, s, t);
    lemma_filter_holds(files[s], hit, pair.2);
    if pairs.contains(pair) {
        let k = choose|k: int| 0 <= k < pairs.len() && pairs[k] == pair;
        assert(pairs[k] == (s, t, kept[k]));
        assert(kept.contains(kept[k]));
    }
    if pair.0 == s && pair.1 == t && kept.contains(pair.2) {
        let k = choose|k: int| 0 <= k < kept.len() && kept[k] == pair.2;
        assert(pairs[k] == pair);
    }
}

proof fn lemma_later(files: Seq<Seq<Seq<char>>>, s: int, n: int, pair: collision::Pair)
    requires
        0 <= s < files.len(),
        n <= files.len(),
    ensures
        collision::against_later(files, s, n).contains(pair) <==> pair.0 == s && s < pair.1 < n
            && files[s].contains(pair.2) && filelist::collides(pair.2, files[pair.1]),
    decreases n - s,
{
    if n > s + 1 {
        lemma_later(files, s, n - 1, pair);
        lemma_against(files, s, n - 1, pair);
        lemma_add_holds(
            collision::against_later(files, s, n - 1),
            collision::against(files, s, n - 1),
            pair,
        );
    }
}

proof fn lemma_own(scene: Scene, s: int, c: FileConflictView)
    requires
        0 <= s < scene.targets.len(),
    ensures
        own_conflicts(scene.targets, scene.released, s).contains(c) <==> exists|
            t: int,
            path: Seq<char>,
        |
            c == #[trigger] clash_at(scene, s, t, path) && both_ship(scene, s, t, path),
{
    let targets = scene.targets;
    let files = lists(targets);
    let pairs = collision::against_later(files, s, targets.len() as int);
    let keep = |p: collision::Pair| crate::conflict::stands(targets, scene.released, p);
    let kept = pairs.filter(keep);
    let own = own_conflicts(targets, scene.released, s);
    if own.contains(c) {
        let k = choose|k: int| 0 <= k < own.len() && own[k] == c;
        let pair = kept[k];
        assert(kept.contains(pair));
        lemma_filter_holds(pairs, keep, pair);
        lemma_later(files, s, targets.len() as int, pair);
        lemma_collides(pair.2, files[pair.1]);
        assert(c == clash_at(scene, s, pair.1, pair.2));
        assert(both_ship(scene, s, pair.1, pair.2));
    }
    if exists|t: int, path: Seq<char>|
        c == #[trigger] clash_at(scene, s, t, path) && both_ship(scene, s, t, path) {
        let (t, path) = choose|t: int, path: Seq<char>|
            c == #[trigger] clash_at(scene, s, t, path) && both_ship(scene, s, t, path);
        let pair = (s, t, path);
        lemma_collides(path, files[t]);
        lemma_later(files, s, targets.len() as int, pair);
        lemma_filter_holds(pairs, keep, pair);
        let k = choose|k: int| 0 <= k < kept.len() && kept[k] == pair;
        assert(own[k] == c);
    }
}

proof fn lemma_found_are_of_the_filesystem(
    scene: Scene,
    t: int,
    paths: Seq<Seq<char>>,
    c: FileConflictView,
)
    requires
        0 <= t < scene.targets.len(),
        scene.path_conflicts(t, paths).contains(c),
    ensures
        c.blocker is Filesystem,
{
    lemma_paths_sound(scene, t, paths, c);
}

/// Two packages of a transaction conflict where, and only where, both ship a place, not both as a
/// directory, and the user did not release it: the earlier names the path, and the later blocks
/// it.
pub proof fn two_targets_conflict(scene: Scene, c: FileConflictView)
    requires
        c.blocker is Target,
    ensures
        all_conflicts(scene, scene.targets.len() as int).contains(c) <==> exists|
            s: int,
            t: int,
            path: Seq<char>,
        |
            c == #[trigger] clash_at(scene, s, t, path) && both_ship(scene, s, t, path),
{
    let n = scene.targets.len() as int;
    lemma_all(scene, n, c);
    if all_conflicts(scene, n).contains(c) {
        let s = choose|s: int| 0 <= s < n && (#[trigger] blocking(scene, s)).contains(c);
        lemma_blocking(scene, s, c);
        if scene.path_conflicts(s, scene.new_paths(s)).contains(c) {
            lemma_found_are_of_the_filesystem(scene, s, scene.new_paths(s), c);
        }
        lemma_own(scene, s, c);
        let (t, path) = choose|t: int, path: Seq<char>|
            c == #[trigger] clash_at(scene, s, t, path) && both_ship(scene, s, t, path);
        assert(c == clash_at(scene, s, t, path));
    }
    if exists|s: int, t: int, path: Seq<char>|
        c == #[trigger] clash_at(scene, s, t, path) && both_ship(scene, s, t, path) {
        let (s, t, path) = choose|s: int, t: int, path: Seq<char>|
            c == #[trigger] clash_at(scene, s, t, path) && both_ship(scene, s, t, path);
        lemma_own(scene, s, c);
        lemma_blocking(scene, s, c);
        assert(blocking(scene, s).contains(c));
    }
}

/// A conflict with the filesystem is at a path that a target ships, that its installed version
/// does not list and that is in the way. It names the package that owns what is there.
pub proof fn a_conflict_with_the_filesystem_is_real(scene: Scene, c: FileConflictView)
    requires
        c.blocker is Filesystem,
        all_conflicts(scene, scene.targets.len() as int).contains(c),
    ensures
        exists|t: int, path: Seq<char>, owner: Option<Seq<char>>|
            0 <= t < scene.targets.len() && c == #[trigger] blocked_at(scene, t, path, owner)
                && scene.targets[t].files@.contains(path) && !lists_path(
                scene.packages,
                scene.targets[t].name@,
                path,
            ) && scene.verdict(t, path) is Conflict && is_owner(
                scene.packages,
                place(path),
                owner,
            ),
{
    let n = scene.targets.len() as int;
    lemma_all(scene, n, c);
    let t = choose|t: int| 0 <= t < n && (#[trigger] blocking(scene, t)).contains(c);
    lemma_blocking(scene, t, c);
    lemma_own(scene, t, c);
    let paths = scene.new_paths(t);
    lemma_paths_sound(scene, t, paths, c);
    let (path, owner) = choose|path: Seq<char>, owner: Option<Seq<char>>|
        paths.contains(path) && scene.verdict(t, path) is Conflict && c == #[trigger] blocked_at(
            scene,
            t,
            path,
            owner,
        ) && is_owner(scene.packages, place(path), owner);
    lemma_new_paths(scene, t, path);
    assert(c == blocked_at(scene, t, path, owner));
}

/// Every path of a target that is in the way is reported, unless its installed version lists it or
/// a directory above it among the new paths is accounted for as a whole.
pub proof fn what_is_in_the_way_is_reported(scene: Scene, t: int, path: Seq<char>)
    requires
        0 <= t < scene.targets.len(),
        scene.targets[t].files@.contains(path),
        !lists_path(scene.packages, scene.targets[t].name@, path),
        !spoken_for(scene, t, scene.targets[t].files@, path),
    ensures
        scene.verdict(t, path) is Conflict ==> exists|owner: Option<Seq<char>>|
            all_conflicts(scene, scene.targets.len() as int).contains(
                #[trigger] blocked_at(scene, t, path, owner),
            ),
        scene.verdict(t, path) is ChangesOwner ==> scene.handed_over(
            scene.targets.len() as int,
        ).contains(place(path)),
{
    let n = scene.targets.len() as int;
    let paths = scene.new_paths(t);
    lemma_new_paths(scene, t, path);
    if spoken_for(scene, t, paths, path) {
        let k = choose|k: int|
            0 <= k < paths.len() && slashed(#[trigger] paths[k]) && paths[k] != path
                && text::starts_with(path, paths[k]) && (scene.verdict(t, paths[k])
                is FileBecomesDirectory || scene.verdict(t, paths[k]) is RemovedByTransaction
                || scene.verdict(t, paths[k]) is ChangesOwner);
        lemma_new_paths(scene, t, paths[k]);
        assert(paths.contains(paths[k]));
        let all = scene.targets[t].files@;
        let m = choose|m: int| 0 <= m < all.len() && all[m] == paths[k];
        assert(slashed(all[m]));
    }
    lemma_paths_found(scene, t, paths, path);
    if scene.verdict(t, path) is Conflict {
        let owner = choose|owner: Option<Seq<char>>|
            scene.path_conflicts(t, paths).contains(#[trigger] blocked_at(scene, t, path, owner));
        let c = blocked_at(scene, t, path, owner);
        lemma_blocking(scene, t, c);
        lemma_all(scene, n, c);
        assert(blocking(scene, t).contains(c));
        assert(all_conflicts(scene, n).contains(c));
    }
    if scene.verdict(t, path) is ChangesOwner {
        lemma_handed(scene, n, place(path));
        assert(scene.path_handovers(t, scene.new_paths(t)).contains(place(path)));
    }
}

proof fn lemma_handed(scene: Scene, n: int, at: Seq<char>)
    ensures
        scene.handed_over(n).contains(at) <==> exists|t: int|
            0 <= t < n && scene.path_handovers(t, #[trigger] scene.new_paths(t)).contains(at),
    decreases n,
{
    if n > 0 {
        lemma_handed(scene, n - 1, at);
        lemma_add_holds(
            scene.handed_over(n - 1),
            scene.path_handovers(n - 1, scene.new_paths(n - 1)),
            at,
        );
        if scene.handed_over(n - 1).contains(at) {
            let t = choose|t: int|
                0 <= t < n - 1 && scene.path_handovers(t, #[trigger] scene.new_paths(t)).contains(
                    at,
                );
            assert(scene.path_handovers(t, scene.new_paths(t)).contains(at));
        }
    }
}

/// A path that a removal must leave alone is one that a target ships and that changes hands.
pub proof fn what_is_kept_from_removal_changes_hands(scene: Scene, at: Seq<char>)
    requires
        scene.handed_over(scene.targets.len() as int).contains(at),
    ensures
        exists|t: int, path: Seq<char>|
            0 <= t < scene.targets.len() && #[trigger] scene.targets[t].files@.contains(path)
                && scene.verdict(t, path) is ChangesOwner && at == place(path) && !lists_path(
                scene.packages,
                scene.targets[t].name@,
                path,
            ),
{
    let n = scene.targets.len() as int;
    lemma_handed(scene, n, at);
    let t = choose|t: int|
        0 <= t < n && scene.path_handovers(t, #[trigger] scene.new_paths(t)).contains(at);
    let paths = scene.new_paths(t);
    lemma_handed_sound(scene, t, paths, at);
    let path = choose|path: Seq<char>| #[trigger]
        paths.contains(path) && scene.verdict(t, path) is ChangesOwner && at == place(path);
    lemma_new_paths(scene, t, path);
    assert(scene.targets[t].files@.contains(path));
}

/// What any of the removed packages lists is in nobody's way, whichever of them it is.
pub proof fn what_is_removed_blocks_nothing(
    scene: Scene,
    t: int,
    path: Seq<char>,
    i: int,
    c: FileConflictView,
)
    requires
        0 <= t < scene.targets.len(),
        0 <= i < scene.removals.len(),
        lists_path(scene.packages, scene.removals[i], place(path)),
    ensures
        scene.verdict(t, path) !is Conflict,
        c.blocker is Filesystem && c.path == place(path) ==> !all_conflicts(
            scene,
            scene.targets.len() as int,
        ).contains(c),
{
    a_path_is_in_the_way(scene, t, path);
    let n = scene.targets.len() as int;
    if c.blocker is Filesystem && c.path == place(path) && all_conflicts(scene, n).contains(c) {
        a_conflict_with_the_filesystem_is_real(scene, c);
        let (u, other, owner) = choose|u: int, other: Seq<char>, owner: Option<Seq<char>>|
            0 <= u < scene.targets.len() && c == #[trigger] blocked_at(scene, u, other, owner)
                && scene.targets[u].files@.contains(other) && !lists_path(
                scene.packages,
                scene.targets[u].name@,
                other,
            ) && scene.verdict(u, other) is Conflict && is_owner(
                scene.packages,
                place(other),
                owner,
            );
        a_path_is_in_the_way(scene, u, other);
        assert(removal_lists(scene, place(other)));
    }
}

/// A directory empties only where packages list it, every one of them goes away or is the one that
/// is installed, and it can be read.
pub proof fn an_emptied_directory_is_everybodys_to_lose(
    scene: Scene,
    dir: Seq<char>,
    name: Seq<char>,
)
    requires
        filesystem::vacated(
            scene.fs,
            scene.packages,
            dir,
            name,
            scene.removals,
            scene.limits,
        ),
    ensures
        anyone_lists(scene.packages, dir.push('/')),
        forall|j: int|
            0 <= j < scene.packages.len() && (#[trigger] scene.packages[j]).files.contains(
                dir.push('/'),
            ) ==> scene.packages[j].name == name || scene.removals.contains(
                scene.packages[j].name,
            ),
        scene.fs.listing(dir.push('/')) is Some,
        forall|k: int|
            0 <= k < (scene.fs.listing(dir.push('/'))->0).len() ==> {
                let entry = #[trigger] (scene.fs.listing(dir.push('/'))->0)[k];
                anyone_lists(
                    scene.packages,
                    if entry.1 {
                        (dir.push('/') + entry.0).push('/')
                    } else {
                        dir.push('/') + entry.0
                    },
                )
            },
{
    reveal_strlit("/");
    let inside = dir.push('/');
    assert(dir + "/"@ =~= inside);
    let claimants = owner::owners_of(scene.packages, inside);
    lemma_anyone(scene.packages, inside);
    assert forall|j: int|
        0 <= j < scene.packages.len() && (#[trigger] scene.packages[j]).files.contains(
            inside,
        ) implies scene.packages[j].name == name || scene.removals.contains(
        scene.packages[j].name,
    ) by {
        lemma_owner_is_listed(scene.packages, inside, j);
        let m = choose|m: int|
            0 <= m < claimants.len() && claimants[m] == scene.packages[j].name;
        assert(scene.removals.contains(claimants[m]) || claimants[m] == name);
    }
    let lists = filesystem::lists_of(scene.packages, claimants);
    let entries = scene.fs.listing(inside)->0;
    lemma_walked(
        scene.fs,
        lists,
        inside,
        entries,
        scene.limits.max_depth as nat,
        scene.limits.max_entries as nat,
    );
    assert forall|k: int| 0 <= k < entries.len() implies {
        let entry = #[trigger] entries[k];
        anyone_lists(
            scene.packages,
            if entry.1 {
                (inside + entry.0).push('/')
            } else {
                inside + entry.0
            },
        )
    } by {
        let entry = entries[k];
        let child = filesystem::child(inside, entry);
        assert(filesystem::any_holds(lists, child));
        let m = choose|m: int| 0 <= m < lists.len() && (#[trigger] lists[m]).contains(child);
        lemma_lists_are_installed(scene.packages, claimants, m);
        let j = choose|j: int|
            0 <= j < scene.packages.len() && (#[trigger] scene.packages[j]).files == lists[m];
        assert(scene.packages[j].files.contains(child));
        if entry.1 {
            assert(child =~= (inside + entry.0).push('/'));
        }
    }
}

proof fn lemma_owner_is_listed(packages: Seq<PackageView>, path: Seq<char>, j: int)
    requires
        0 <= j < packages.len(),
        packages[j].files.contains(path),
    ensures
        owner::owners_of(packages, path).contains(packages[j].name),
    decreases packages.len(),
{
    let fewer = packages.drop_last();
    let rest = owner::owners_of(fewer, path);
    lemma_push_holds(rest, packages.last().name, packages[j].name);
    if j < fewer.len() {
        lemma_owner_is_listed(fewer, path, j);
    }
}

proof fn lemma_lists_are_installed(packages: Seq<PackageView>, names: Seq<Seq<char>>, m: int)
    requires
        0 <= m < filesystem::lists_of(packages, names).len(),
    ensures
        exists|j: int|
            0 <= j < packages.len() && (#[trigger] packages[j]).files == filesystem::lists_of(
                packages,
                names,
            )[m],
    decreases names.len(),
{
    if names.len() > 0 {
        let rest = filesystem::lists_of(packages, names.drop_last());
        if m < rest.len() {
            lemma_lists_are_installed(packages, names.drop_last(), m);
        } else {
            owner::lemma_index_of_name(packages, names.last());
            let i = owner::index_of_name(packages, names.last());
            assert(packages[i].files == filesystem::lists_of(packages, names)[m]);
        }
    }
}

proof fn lemma_walked(
    fs: filesystem::Filesystem,
    lists: Seq<Seq<Seq<char>>>,
    dir: Seq<char>,
    entries: Seq<(Seq<char>, bool)>,
    depth: nat,
    budget: nat,
)
    requires
        filesystem::walk_entries(fs, lists, dir, entries, depth, budget) is Some,
    ensures
        forall|k: int|
            0 <= k < entries.len() ==> filesystem::any_holds(
                lists,
                filesystem::child(dir, #[trigger] entries[k]),
            ),
        forall|k: int|
            0 <= k < entries.len() && (#[trigger] entries[k]).1 ==> exists|left: nat| #[trigger]
                filesystem::walk(
                    fs,
                    lists,
                    filesystem::child(dir, entries[k]),
                    (depth - 1) as nat,
                    left,
                ) is Some,
    decreases entries.len(),
{
    if entries.len() > 0 {
        let rest = entries.skip(1);
        let left = if entries[0].1 {
            filesystem::walk(
                fs,
                lists,
                filesystem::child(dir, entries[0]),
                (depth - 1) as nat,
                (budget - 1) as nat,
            )
        } else {
            Some((budget - 1) as nat)
        };
        lemma_walked(fs, lists, dir, rest, depth, left->0);
        assert forall|k: int| 0 <= k < entries.len() implies filesystem::any_holds(
            lists,
            filesystem::child(dir, #[trigger] entries[k]),
        ) by {
            if k > 0 {
                assert(rest[k - 1] == entries[k]);
            }
        }
        assert forall|k: int| 0 <= k < entries.len() && (#[trigger] entries[k]).1 implies exists|
            left: nat,
        | #[trigger]
            filesystem::walk(
                fs,
                lists,
                filesystem::child(dir, entries[k]),
                (depth - 1) as nat,
                left,
            ) is Some by {
            if k > 0 {
                assert(rest[k - 1] == entries[k]);
            }
        }
    }
}

proof fn lemma_same_removals(a: Scene, b: Scene, t: int, path: Seq<char>)
    requires
        b == (Scene { removals: b.removals, ..a }),
        forall|name: Seq<char>| a.removals.contains(name) <==> b.removals.contains(name),
    ensures
        a.context(t, path) == b.context(t, path),
{
    let at = filelist::stripped(path);
    let name = a.targets[t].name@;
    assert(a.removed(at) == b.removed(at)) by {
        if a.removed(at) {
            let i = choose|i: int|
                0 <= i < a.removals.len() && filesystem::owner_holds(
                    a.packages,
                    #[trigger] a.removals[i],
                    at,
                );
            assert(a.removals.contains(a.removals[i]));
            let j = choose|j: int| 0 <= j < b.removals.len() && b.removals[j] == a.removals[i];
            assert(filesystem::owner_holds(b.packages, b.removals[j], at));
        }
        if b.removed(at) {
            let i = choose|i: int|
                0 <= i < b.removals.len() && filesystem::owner_holds(
                    b.packages,
                    #[trigger] b.removals[i],
                    at,
                );
            assert(b.removals.contains(b.removals[i]));
            let j = choose|j: int| 0 <= j < a.removals.len() && a.removals[j] == b.removals[i];
            assert(filesystem::owner_holds(a.packages, a.removals[j], at));
        }
    }
    assert(filesystem::vacated(a.fs, a.packages, at, name, a.removals, a.limits)
        == filesystem::vacated(b.fs, b.packages, at, name, b.removals, b.limits));
}

proof fn lemma_same_paths(a: Scene, b: Scene, t: int, paths: Seq<Seq<char>>)
    requires
        b == (Scene { removals: b.removals, ..a }),
        forall|name: Seq<char>| a.removals.contains(name) <==> b.removals.contains(name),
    ensures
        a.path_conflicts(t, paths) == b.path_conflicts(t, paths),
        a.path_handovers(t, paths) == b.path_handovers(t, paths),
    decreases paths.len(),
{
    if paths.len() > 0 {
        lemma_same_removals(a, b, t, paths[0]);
        filesystem::lemma_skip_below(paths.skip(1), paths[0]);
        lemma_same_paths(a, b, t, a.after(t, paths));
    }
}

/// In which order, and how often, the removed packages are named changes nothing.
pub proof fn the_order_of_removals_does_not_matter(scene: Scene, removals: Seq<Seq<char>>, n: int)
    requires
        forall|name: Seq<char>| scene.removals.contains(name) <==> removals.contains(name),
    ensures
        all_conflicts(scene, n) == all_conflicts(Scene { removals, ..scene }, n),
        scene.handed_over(n) == (Scene { removals, ..scene }).handed_over(n),
    decreases n,
{
    if n > 0 {
        let other = Scene { removals, ..scene };
        the_order_of_removals_does_not_matter(scene, removals, n - 1);
        lemma_same_paths(scene, other, n - 1, scene.new_paths(n - 1));
    }
}

/// The conflicts of a target come after those of the targets before it.
pub proof fn conflicts_come_in_target_order(scene: Scene, t: int, k: int)
    requires
        0 <= t < scene.targets.len(),
        all_conflicts(scene, t).len() <= k < all_conflicts(scene, t + 1).len(),
    ensures
        all_conflicts(scene, t).is_prefix_of(all_conflicts(scene, t + 1)),
        all_conflicts(scene, t + 1)[k].package == scene.targets[t].name@,
{
    let c = all_conflicts(scene, t + 1)[k];
    let mine = blocking(scene, t);
    assert(c == mine[k - all_conflicts(scene, t).len()]);
    assert(mine.contains(c));
    lemma_blocking(scene, t, c);
    lemma_own(scene, t, c);
    if scene.path_conflicts(t, scene.new_paths(t)).contains(c) {
        lemma_paths_sound(scene, t, scene.new_paths(t), c);
    }
}

// ---------------------------------------------------------------------------------------------
// Directories that empty

/// The path of an entry of a directory, which ends in a slash where it is one itself.
pub open spec fn inner_path(dir: Seq<char>, entry: (Seq<char>, bool)) -> Seq<char> {
    if entry.1 {
        (dir + entry.0).push('/')
    } else {
        dir + entry.0
    }
}

/// Whether a package that lists a directory also has a path: the first package of its name does.
pub open spec fn claimed_by_any(
    packages: Seq<PackageView>,
    inside: Seq<char>,
    path: Seq<char>,
) -> bool {
    exists|j: int|
        0 <= j < packages.len() && (#[trigger] packages[j]).files.contains(inside) && lists_path(
            packages,
            packages[j].name,
            path,
        )
}

/// Whether everything below a directory, no deeper than `depth`, can be read and is claimed.
pub open spec fn all_claimed(
    scene: Scene,
    inside: Seq<char>,
    dir: Seq<char>,
    depth: nat,
) -> bool
    decreases depth,
{
    &&& depth > 0
    &&& scene.fs.listing(dir) is Some
    &&& forall|k: int|
        0 <= k < (scene.fs.listing(dir)->0).len() ==> {
            let entry = #[trigger] (scene.fs.listing(dir)->0)[k];
            &&& claimed_by_any(scene.packages, inside, inner_path(dir, entry))
            &&& entry.1 ==> all_claimed(
                scene,
                inside,
                inner_path(dir, entry),
                (depth - 1) as nat,
            )
        }
}

/// How many entries there are below a directory, no deeper than `depth`.
pub open spec fn count_below(fs: Filesystem, dir: Seq<char>, depth: nat) -> nat
    decreases depth, 1nat, 0nat,
{
    if depth == 0 || fs.listing(dir) is None {
        0
    } else {
        count_entries(fs, dir, fs.listing(dir)->0, depth)
    }
}

/// How many entries there are at and below those of a directory.
pub open spec fn count_entries(
    fs: Filesystem,
    dir: Seq<char>,
    entries: Seq<(Seq<char>, bool)>,
    depth: nat,
) -> nat
    decreases depth, 0nat, entries.len(),
{
    if entries.len() == 0 || depth == 0 {
        0
    } else {
        1 + (if entries[0].1 {
            count_below(fs, inner_path(dir, entries[0]), (depth - 1) as nat)
        } else {
            0
        }) + count_entries(fs, dir, entries.skip(1), depth)
    }
}

proof fn lemma_inner_path(dir: Seq<char>, entry: (Seq<char>, bool))
    ensures
        filesystem::child(dir, entry) == inner_path(dir, entry),
{
    reveal_strlit("/");
    assert(dir + entry.0 + "/"@ =~= (dir + entry.0).push('/'));
}

proof fn lemma_held_by(packages: Seq<PackageView>, names: Seq<Seq<char>>, path: Seq<char>)
    ensures
        filesystem::any_holds(filesystem::lists_of(packages, names), path) <==> exists|m: int|
            0 <= m < names.len() && lists_path(packages, #[trigger] names[m], path),
    decreases names.len(),
{
    let lists = filesystem::lists_of(packages, names);
    if names.len() > 0 {
        let fewer = names.drop_last();
        let last = names.len() - 1;
        lemma_held_by(packages, fewer, path);
        lemma_lists(packages, names[last], path);
        let before = filesystem::lists_of(packages, fewer);
        if filesystem::any_holds(before, path) {
            let i = choose|i: int| 0 <= i < before.len() && (#[trigger] before[i]).contains(path);
            assert(lists[i] == before[i]);
            let m = choose|m: int|
                0 <= m < fewer.len() && lists_path(packages, #[trigger] fewer[m], path);
            assert(lists_path(packages, names[m], path));
        }
        if filesystem::owner_holds(packages, names[last], path) {
            assert(lists[before.len() as int].contains(path));
        }
        if filesystem::any_holds(lists, path) {
            let i = choose|i: int| 0 <= i < lists.len() && (#[trigger] lists[i]).contains(path);
            if i < before.len() {
                assert(before[i].contains(path));
                let m = choose|m: int|
                    0 <= m < fewer.len() && lists_path(packages, #[trigger] fewer[m], path);
                assert(lists_path(packages, names[m], path));
            } else {
                assert(lists_path(packages, names[last], path));
            }
        }
        if exists|m: int| 0 <= m < names.len() && lists_path(packages, #[trigger] names[m], path) {
            let m = choose|m: int|
                0 <= m < names.len() && lists_path(packages, #[trigger] names[m], path);
            if m < last {
                assert(lists_path(packages, fewer[m], path));
            }
        }
    }
}

proof fn lemma_claimants(packages: Seq<PackageView>, inside: Seq<char>, name: Seq<char>)
    ensures
        owner::owners_of(packages, inside).contains(name) <==> exists|j: int|
            0 <= j < packages.len() && (#[trigger] packages[j]).files.contains(inside)
                && packages[j].name == name,
    decreases packages.len(),
{
    if packages.len() > 0 {
        let fewer = packages.drop_last();
        let last = packages.len() - 1;
        lemma_claimants(fewer, inside, name);
        lemma_push_holds(owner::owners_of(fewer, inside), packages[last].name, name);
        if exists|j: int|
            0 <= j < fewer.len() && (#[trigger] fewer[j]).files.contains(inside) && fewer[j].name
                == name {
            let j = choose|j: int|
                0 <= j < fewer.len() && (#[trigger] fewer[j]).files.contains(inside)
                    && fewer[j].name == name;
            assert(packages[j].files.contains(inside));
        }
        if exists|j: int|
            0 <= j < packages.len() && (#[trigger] packages[j]).files.contains(inside)
                && packages[j].name == name {
            let j = choose|j: int|
                0 <= j < packages.len() && (#[trigger] packages[j]).files.contains(inside)
                    && packages[j].name == name;
            if j < last {
                assert(fewer[j].files.contains(inside));
            }
        }
    }
}

proof fn lemma_claimed(packages: Seq<PackageView>, inside: Seq<char>, path: Seq<char>)
    ensures
        filesystem::any_holds(
            filesystem::lists_of(packages, owner::owners_of(packages, inside)),
            path,
        ) == claimed_by_any(packages, inside, path),
{
    let names = owner::owners_of(packages, inside);
    lemma_held_by(packages, names, path);
    if exists|m: int| 0 <= m < names.len() && lists_path(packages, #[trigger] names[m], path) {
        let m = choose|m: int|
            0 <= m < names.len() && lists_path(packages, #[trigger] names[m], path);
        assert(names.contains(names[m]));
        lemma_claimants(packages, inside, names[m]);
        let j = choose|j: int|
            0 <= j < packages.len() && (#[trigger] packages[j]).files.contains(inside)
                && packages[j].name == names[m];
        assert(packages[j].files.contains(inside));
    }
    if claimed_by_any(packages, inside, path) {
        let j = choose|j: int|
            0 <= j < packages.len() && (#[trigger] packages[j]).files.contains(inside)
                && lists_path(packages, packages[j].name, path);
        lemma_claimants(packages, inside, packages[j].name);
        assert(names.contains(packages[j].name));
        let m = choose|m: int| 0 <= m < names.len() && names[m] == packages[j].name;
        assert(lists_path(packages, names[m], path));
    }
}

proof fn lemma_walk_below(
    scene: Scene,
    inside: Seq<char>,
    dir: Seq<char>,
    depth: nat,
    budget: nat,
)
    ensures
        ({
            let lists = filesystem::lists_of(
                scene.packages,
                owner::owners_of(scene.packages, inside),
            );
            filesystem::walk(scene.fs, lists, dir, depth, budget) == if all_claimed(
                scene,
                inside,
                dir,
                depth,
            ) && count_below(scene.fs, dir, depth) <= budget {
                Some((budget - count_below(scene.fs, dir, depth)) as nat)
            } else {
                None
            }
        }),
    decreases depth, 1nat, 0nat,
{
    if depth > 0 {
        if let Some(entries) = scene.fs.listing(dir) {
            lemma_walk_entries(scene, inside, dir, entries, depth, budget);
        }
    }
}

proof fn lemma_walk_entries(
    scene: Scene,
    inside: Seq<char>,
    dir: Seq<char>,
    entries: Seq<(Seq<char>, bool)>,
    depth: nat,
    budget: nat,
)
    requires
        depth > 0,
    ensures
        ({
            let lists = filesystem::lists_of(
                scene.packages,
                owner::owners_of(scene.packages, inside),
            );
            filesystem::walk_entries(scene.fs, lists, dir, entries, depth, budget) == if (forall|
                k: int,
            |
                0 <= k < entries.len() ==> {
                    let entry = #[trigger] entries[k];
                    &&& claimed_by_any(scene.packages, inside, inner_path(dir, entry))
                    &&& entry.1 ==> all_claimed(
                        scene,
                        inside,
                        inner_path(dir, entry),
                        (depth - 1) as nat,
                    )
                }) && count_entries(scene.fs, dir, entries, depth) <= budget {
                Some((budget - count_entries(scene.fs, dir, entries, depth)) as nat)
            } else {
                None
            }
        }),
    decreases depth, 0nat, entries.len(),
{
    if entries.len() > 0 {
        let first = entries[0];
        let path = inner_path(dir, first);
        let rest = entries.skip(1);
        lemma_inner_path(dir, first);
        lemma_claimed(scene.packages, inside, path);
        let deeper = (depth - 1) as nat;
        let size = if first.1 {
            count_below(scene.fs, path, deeper)
        } else {
            0
        };
        if budget > 0 {
            lemma_walk_below(scene, inside, path, deeper, (budget - 1) as nat);
            if size + 1 <= budget {
                lemma_walk_entries(
                    scene,
                    inside,
                    dir,
                    rest,
                    depth,
                    (budget - 1 - size) as nat,
                );
            }
        }
        assert forall|k: int| 0 <= k < rest.len() implies #[trigger] rest[k] == entries[k + 1] by {}
        assert forall|k: int| 1 <= k < entries.len() implies #[trigger] entries[k]
            == rest[k - 1] by {}
    }
}

/// A directory empties exactly where a package lists it, every package that does goes away or is
/// the one that is installed, and everything below it can be read, is theirs, and is neither deeper
/// nor more than the limits allow.
pub proof fn a_directory_empties_with_all_it_holds(scene: Scene, dir: Seq<char>, name: Seq<char>)
    ensures
        filesystem::vacated(
            scene.fs,
            scene.packages,
            dir,
            name,
            scene.removals,
            scene.limits,
        ) <==> {
            let inside = dir.push('/');
            &&& anyone_lists(scene.packages, inside)
            &&& forall|j: int|
                0 <= j < scene.packages.len() && (#[trigger] scene.packages[j]).files.contains(
                    inside,
                ) ==> scene.packages[j].name == name || scene.removals.contains(
                    scene.packages[j].name,
                )
            &&& all_claimed(scene, inside, inside, scene.limits.max_depth as nat)
            &&& count_below(scene.fs, inside, scene.limits.max_depth as nat)
                <= scene.limits.max_entries
        },
{
    reveal_strlit("/");
    let inside = dir.push('/');
    assert(dir + "/"@ =~= inside);
    let claimants = owner::owners_of(scene.packages, inside);
    lemma_anyone(scene.packages, inside);
    lemma_walk_below(
        scene,
        inside,
        inside,
        scene.limits.max_depth as nat,
        scene.limits.max_entries as nat,
    );
    let all_go = forall|i: int|
        0 <= i < claimants.len() ==> scene.removals.contains(#[trigger] claimants[i])
            || claimants[i] == name;
    let each_goes = forall|j: int|
        0 <= j < scene.packages.len() && (#[trigger] scene.packages[j]).files.contains(inside)
            ==> scene.packages[j].name == name || scene.removals.contains(scene.packages[j].name);
    if all_go {
        assert forall|j: int|
            0 <= j < scene.packages.len() && (#[trigger] scene.packages[j]).files.contains(
                inside,
            ) implies scene.packages[j].name == name || scene.removals.contains(
            scene.packages[j].name,
        ) by {
            lemma_claimants(scene.packages, inside, scene.packages[j].name);
            let m = choose|m: int|
                0 <= m < claimants.len() && claimants[m] == scene.packages[j].name;
            assert(scene.removals.contains(claimants[m]) || claimants[m] == name);
        }
    }
    if each_goes {
        assert forall|i: int| 0 <= i < claimants.len() implies scene.removals.contains(
            #[trigger] claimants[i],
        ) || claimants[i] == name by {
            assert(claimants.contains(claimants[i]));
            lemma_claimants(scene.packages, inside, claimants[i]);
        }
    }
    assert(all_go == each_goes);
}

// ---------------------------------------------------------------------------------------------
// Targets alone

proof fn lemma_pairwise(files: Seq<Seq<Seq<char>>>, m: int, pair: collision::Pair)
    requires
        0 <= m <= files.len(),
    ensures
        collision::pairwise(files, m).contains(pair) <==> 0 <= pair.0 < m && pair.0 < pair.1
            < files.len() && files[pair.0].contains(pair.2) && filelist::collides(
            pair.2,
            files[pair.1],
        ),
    decreases m,
{
    if m > 0 {
        let n = files.len() as int;
        lemma_pairwise(files, m - 1, pair);
        lemma_later(files, m - 1, n, pair);
        lemma_add_holds(
            collision::pairwise(files, m - 1),
            collision::against_later(files, m - 1, n),
            pair,
        );
    }
}

/// Checked against each other alone, two targets conflict where, and only where, both ship a place.
pub proof fn two_targets_conflict_by_themselves(scene: Scene, c: FileConflictView)
    ensures
        target_conflicts(scene.targets, scene.released).contains(c) <==> exists|
            s: int,
            t: int,
            path: Seq<char>,
        |
            c == #[trigger] clash_at(scene, s, t, path) && both_ship(scene, s, t, path),
{
    let targets = scene.targets;
    let files = lists(targets);
    let n = targets.len() as int;
    let pairs = collision::pairwise(files, n);
    let keep = |p: collision::Pair| crate::conflict::stands(targets, scene.released, p);
    let kept = pairs.filter(keep);
    let all = target_conflicts(targets, scene.released);
    if all.contains(c) {
        let k = choose|k: int| 0 <= k < all.len() && all[k] == c;
        let pair = kept[k];
        assert(kept.contains(pair));
        lemma_filter_holds(pairs, keep, pair);
        lemma_pairwise(files, n, pair);
        lemma_collides(pair.2, files[pair.1]);
        assert(c == clash_at(scene, pair.0, pair.1, pair.2));
        assert(both_ship(scene, pair.0, pair.1, pair.2));
    }
    if exists|s: int, t: int, path: Seq<char>|
        c == #[trigger] clash_at(scene, s, t, path) && both_ship(scene, s, t, path) {
        let (s, t, path) = choose|s: int, t: int, path: Seq<char>|
            c == #[trigger] clash_at(scene, s, t, path) && both_ship(scene, s, t, path);
        let pair = (s, t, path);
        lemma_collides(path, files[t]);
        lemma_pairwise(files, n, pair);
        lemma_filter_holds(pairs, keep, pair);
        let k = choose|k: int| 0 <= k < kept.len() && kept[k] == pair;
        assert(all[k] == c);
    }
}

/// Of two lists, what one has beyond the other is what it spells otherwise, and what both have is
/// what names one place, not in both as a directory; each in the order of the first.
pub proof fn lists_are_compared_path_by_path(
    a: Seq<Seq<char>>,
    b: Seq<Seq<char>>,
    path: Seq<char>,
)
    ensures
        filelist::difference(a, b).contains(path) <==> a.contains(path) && !b.contains(path),
        filelist::intersection(a, b).contains(path) <==> a.contains(path) && exists|
            other: Seq<char>,
        | #[trigger]
            b.contains(other) && clash(path, other),
        filelist::difference(a, b) == a.filter(|p: Seq<char>| !b.contains(p)),
{
    lemma_filter_holds(a, |p: Seq<char>| !b.contains(p), path);
    lemma_filter_holds(a, |p: Seq<char>| filelist::collides(p, b), path);
    lemma_collides(path, b);
}

} // verus!
