//! Who owns a path.

use vstd::prelude::*;

use crate::laws::lists::{lemma_picks_agree, lemma_picks_hold, picks};
use crate::owner::{
    asked_about, files_of, located, mostly_canonical, owner_of, owners_of, owners_of_query, query_of,
    root_prefix, search, stripped, Host, PackageView,
};
use crate::paths;
use crate::paths::{spec_file_name, spec_parent};
use crate::text;

verus! {

// ---------------------------------------------------------------------------------------------
// Paths

/// Whether a text can stand alone between two slashes as a name.
pub open spec fn is_entry(base: Seq<char>) -> bool {
    base.len() > 0 && !base.contains('/') && base != seq!['.'] && base != seq!['.', '.']
}

/// Whether a directory is spelled without anything to spare at its end.
pub open spec fn is_tidy(dir: Seq<char>) -> bool {
    &&& dir.len() > 0
    &&& dir.last() != '/'
    &&& !(dir.len() > 1 && dir.last() == '.' && dir[dir.len() - 2] == '/')
}

proof fn lemma_split_last(head: Seq<char>, base: Seq<char>)
    requires
        !base.contains('/'),
    ensures
        text::split(head.push('/') + base, '/').len() > 0,
        text::split(head.push('/') + base, '/').last() == base,
    decreases head.len(),
{
    let whole = head.push('/') + base;
    let at = text::first(whole, '/');
    text::lemma_first(whole, '/');
    assert(whole[head.len() as int] == '/');
    if at < head.len() {
        let rest = head.skip(at + 1);
        assert(whole.skip(at + 1) =~= rest.push('/') + base);
        lemma_split_last(rest, base);
        assert(whole[at] == '/');
    } else {
        assert(whole.skip(at + 1) =~= base);
        text::lemma_split_whole(base, '/');
    }
}

proof fn lemma_file_name(head: Seq<char>, base: Seq<char>)
    requires
        is_entry(base),
    ensures
        spec_file_name(head.push('/') + base) == Some(base),
        spec_file_name(base) == Some(base),
{
    let keep = |piece: Seq<char>| paths::is_component(piece);
    reveal(Seq::filter);
    lemma_split_last(head, base);
    let all = text::split(head.push('/') + base, '/');
    assert(all.filter(keep).last() == base);
    text::lemma_split_whole(base, '/');
    let one = text::split(base, '/');
    assert(one.drop_last() =~= Seq::<Seq<char>>::empty());
    assert(one.filter(keep).last() == base);
}

proof fn lemma_head_len(head: Seq<char>, base: Seq<char>)
    requires
        !base.contains('/'),
        head.len() == 0 || head.last() == '/',
    ensures
        paths::head_len(head + base) == head.len(),
    decreases base.len(),
{
    let whole = head + base;
    if base.len() > 0 {
        assert(base.contains(base.last()));
        assert(whole.drop_last() =~= head + base.drop_last());
        assert forall|c: char| base.drop_last().contains(c) implies base.contains(c) by {
            let i = choose|i: int| 0 <= i < base.len() - 1 && base.drop_last()[i] == c;
            assert(base[i] == c);
        }
        lemma_head_len(head, base.drop_last());
    } else {
        assert(whole =~= head);
    }
}

proof fn lemma_whole(head: Seq<char>, base: Seq<char>)
    requires
        is_entry(base),
    ensures
        paths::trim_tail(head.push('/') + base) == head.push('/') + base,
        paths::trim_tail(base) == base,
{
    assert(base.contains(base.last()));
    let whole = head.push('/') + base;
    if base.len() == 1 {
        assert(base =~= seq![base[0]]);
        assert(base[0] != '.');
    } else {
        assert(base.contains(base[base.len() - 2]));
        assert(whole[whole.len() - 2] == base[base.len() - 2]);
    }
}

/// A path is the directory that holds it and a name in it. What is right below the root is held by
/// the root, and a name alone by nothing that it says.
pub proof fn a_path_is_a_directory_and_a_name(dir: Seq<char>, base: Seq<char>)
    requires
        is_tidy(dir),
        is_entry(base),
    ensures
        spec_parent(dir.push('/') + base) == dir,
        spec_file_name(dir.push('/') + base) == Some(base),
        spec_parent(seq!['/'] + base) == seq!['/'],
        spec_file_name(seq!['/'] + base) == Some(base),
        spec_parent(base) == Seq::<char>::empty(),
        spec_file_name(base) == Some(base),
{
    let none = Seq::<char>::empty();
    lemma_file_name(dir, base);
    lemma_file_name(none, base);
    lemma_whole(dir, base);
    lemma_whole(none, base);
    assert(none.push('/') =~= seq!['/']);
    lemma_head_len(dir.push('/'), base);
    lemma_head_len(seq!['/'], base);
    lemma_head_len(none, base);
    assert(none + base =~= base);
    assert((dir.push('/') + base).take(dir.len() as int + 1) =~= dir.push('/'));
    assert((seq!['/'] + base).take(1) =~= seq!['/']);
    assert(base.take(0) =~= none);
    assert(dir.push('/').drop_last() =~= dir);
    assert(paths::trim_tail(dir) == dir);
    assert((dir.push('/') + base).len() > 1);
    assert((seq!['/'] + base).len() > 1);
    assert(base != seq!['/']) by {
        if base == seq!['/'] {
            assert(base[0] == '/');
            assert(base.contains('/'));
        }
    }
}

// ---------------------------------------------------------------------------------------------
// Packages

/// Whether package `i` lists a path, spelled exactly so.
pub open spec fn lists(packages: Seq<PackageView>, i: int, path: Seq<char>) -> bool {
    exists|k: int| 0 <= k < packages[i].files.len() && packages[i].files[k] == path
}

/// Whether package `i` is the first that lists a path.
pub open spec fn lists_first(packages: Seq<PackageView>, i: int, path: Seq<char>) -> bool {
    &&& 0 <= i < packages.len()
    &&& lists(packages, i, path)
    &&& forall|k: int| 0 <= k < i ==> !#[trigger] lists(packages, k, path)
}

/// The owners of a path are the packages that list it, each once for each time it is there, in
/// database order; and its owner is the first of them.
pub proof fn an_owner_lists_what_it_owns(packages: Seq<PackageView>, path: Seq<char>)
    ensures
        owners_of(packages, path) == picks(
            packages.len() as int,
            |i: int| lists(packages, i, path),
            |i: int| packages[i].name,
        ),
        forall|i: int| #[trigger]
            lists_first(packages, i, path) ==> owner_of(packages, path) == Some(packages[i].name),
        owner_of(packages, path) is Some ==> exists|i: int| #[trigger]
            lists_first(packages, i, path),
    decreases packages.len(),
{
    if packages.len() > 0 {
        let fewer = packages.drop_last();
        let last = packages.len() - 1;
        an_owner_lists_what_it_owns(fewer, path);
        assert forall|i: int| 0 <= i < last implies #[trigger] lists(fewer, i, path) == lists(
            packages,
            i,
            path,
        ) by {
            assert(fewer[i] == packages[i]);
        }
        lemma_picks_agree(
            last,
            |i: int| lists(fewer, i, path),
            |i: int| lists(packages, i, path),
            |i: int| fewer[i].name,
            |i: int| packages[i].name,
        );
        assert(lists(packages, last, path) == packages.last().files.contains(path));
        assert forall|i: int| #[trigger] lists_first(packages, i, path) implies owner_of(
            packages,
            path,
        ) == Some(packages[i].name) by {
            if i < last {
                assert(lists(fewer, i, path));
                assert forall|k: int| 0 <= k < i implies !#[trigger] lists(fewer, k, path) by {
                    assert(!lists(packages, k, path));
                }
                assert(lists_first(fewer, i, path));
            } else if owner_of(fewer, path) is Some {
                let k = choose|k: int| #[trigger] lists_first(fewer, k, path);
                assert(lists(fewer, k, path));
                assert(lists(packages, k, path));
            }
        }
        if owner_of(packages, path) is Some {
            if owner_of(fewer, path) is Some {
                let i = choose|i: int| #[trigger] lists_first(fewer, i, path);
                assert(lists(fewer, i, path));
                assert forall|k: int| 0 <= k < i implies !#[trigger] lists(packages, k, path) by {
                    assert(!lists(fewer, k, path));
                }
                assert(lists_first(packages, i, path));
            } else {
                assert forall|k: int| 0 <= k < last implies !#[trigger] lists(
                    packages,
                    k,
                    path,
                ) by {
                    let p = |i: int| lists(fewer, i, path);
                    let f = |i: int| fewer[i].name;
                    lemma_picks_hold(last, p, f, fewer[k].name);
                    if lists(packages, k, path) {
                        assert(lists(fewer, k, path));
                        assert(p(k) && f(k) == fewer[k].name);
                        assert(owners_of(fewer, path).contains(fewer[k].name));
                    }
                }
                assert(lists_first(packages, last, path));
            }
        }
    }
}

/// The files of a name are those of the first package of that name.
pub proof fn a_name_is_that_of_its_first_package(packages: Seq<PackageView>, name: Seq<char>)
    ensures
        forall|i: int|
            0 <= i < packages.len() && (#[trigger] packages[i]).name == name && (forall|k: int|
                0 <= k < i ==> (#[trigger] packages[k]).name != name) ==> files_of(packages, name)
                == Some(packages[i].files),
        files_of(packages, name) is None <==> forall|i: int|
            0 <= i < packages.len() ==> (#[trigger] packages[i]).name != name,
{
    crate::owner::lemma_index_of_name(packages, name);
    let at = crate::owner::index_of_name(packages, name);
    if at < packages.len() {
        assert(packages[at].name == name);
    }
    assert forall|i: int|
        0 <= i < packages.len() && (#[trigger] packages[i]).name == name && (forall|k: int|
            0 <= k < i ==> (#[trigger] packages[k]).name != name) implies files_of(packages, name)
        == Some(packages[i].files) by {
        if at < i {
            assert(packages[at].name != name);
        }
    }
}

// ---------------------------------------------------------------------------------------------
// Questions

/// A text of slashes.
pub open spec fn is_slashes(s: Seq<char>) -> bool {
    forall|i: int| 0 <= i < s.len() ==> #[trigger] s[i] == '/'
}

/// A target is asked about without the slashes it ends in, and nothing else is cut off.
pub proof fn only_trailing_slashes_are_cut(target: Seq<char>) -> (slashes: Seq<char>)
    ensures
        target == stripped(target) + slashes,
        is_slashes(slashes),
        stripped(target).len() <= 1 || stripped(target).last() != '/',
        target.len() > 0 ==> stripped(target).len() > 0,
    decreases target.len(),
{
    if target.len() > 1 && target.last() == '/' {
        let fewer = only_trailing_slashes_are_cut(target.drop_last());
        let slashes = fewer.push('/');
        assert(target =~= target.drop_last().push('/'));
        assert(stripped(target) == stripped(target.drop_last()));
        assert(target.drop_last().push('/') =~= stripped(target) + slashes);
        slashes
    } else {
        assert(target =~= stripped(target) + Seq::<char>::empty());
        Seq::empty()
    }
}

/// Whether entry `i` of the search path holds a name.
pub open spec fn holds(host: Host, name: Seq<char>, search_path: Seq<Seq<char>>, i: int) -> bool {
    search_path[i].len() > 0 && host.there.spec_get(within(search_path[i], name)) is Some
}

/// A name in a directory: one slash stands between them.
pub open spec fn within(dir: Seq<char>, name: Seq<char>) -> Seq<char> {
    if dir.len() > 0 && dir.last() != '/' {
        dir.push('/') + name
    } else {
        dir + name
    }
}

/// A directory with a slash at its end.
pub open spec fn ended(dir: Seq<char>) -> Seq<char> {
    if dir.len() > 0 && dir.last() == '/' {
        dir
    } else {
        dir.push('/')
    }
}

proof fn lemma_search(host: Host, name: Seq<char>, search_path: Seq<Seq<char>>, i: int)
    requires
        0 <= i <= search_path.len(),
        forall|k: int| 0 <= k < i ==> !#[trigger] holds(host, name, search_path, k),
    ensures
        match search(host, name, search_path, i) {
            Some(at) => exists|j: int|
                0 <= j < search_path.len() && #[trigger] holds(host, name, search_path, j) && at
                    == within(search_path[j], name) && forall|k: int|
                    0 <= k < j ==> !#[trigger] holds(host, name, search_path, k),
            None => forall|k: int|
                0 <= k < search_path.len() ==> !#[trigger] holds(host, name, search_path, k),
        },
    decreases search_path.len() - i,
{
    if i < search_path.len() {
        if !holds(host, name, search_path, i) {
            lemma_search(host, name, search_path, i + 1);
        }
    }
}

/// A target that is there, or that says where it is, is taken as it stands. Another is the one in
/// the first entry of the search path that holds it, and where none does, it is taken as it stands.
pub proof fn a_bare_name_is_searched_for(
    host: Host,
    target: Seq<char>,
    search_path: Seq<Seq<char>>,
    i: int,
)
    requires
        0 <= i < search_path.len(),
    ensures
        ({
            let bare = stripped(target);
            let at = located(host, target, search_path);
            &&& host.there.spec_get(bare) is Some || bare.contains('/') ==> at == bare
            &&& host.there.spec_get(bare) is None && !bare.contains('/') && holds(
                host,
                bare,
                search_path,
                i,
            ) && (forall|k: int| 0 <= k < i ==> !#[trigger] holds(host, bare, search_path, k))
                ==> at == within(search_path[i], bare)
            &&& (forall|k: int|
                0 <= k < search_path.len() ==> !#[trigger] holds(host, bare, search_path, k)) ==> at
                == bare
        }),
{
    lemma_search(host, stripped(target), search_path, 0);
}

/// What a path comes to where the directory that holds it is known by another name: that name, and
/// the path's own last component, whatever it links to.
pub proof fn the_last_component_is_not_followed(
    host: Host,
    dir: Seq<char>,
    base: Seq<char>,
    known: String,
)
    requires
        is_tidy(dir),
        is_entry(base),
    ensures
        host.canonical.spec_get(dir) == Some(known) ==> mostly_canonical(host, dir.push('/') + base)
            == within(known@, base),
        host.canonical.spec_get("."@) == Some(known) ==> mostly_canonical(host, base) == within(
            known@,
            base,
        ),
        host.canonical.spec_get(dir) is None ==> mostly_canonical(host, dir.push('/') + base)
            == dir.push('/') + base,
        host.canonical.spec_get("."@) is None ==> mostly_canonical(host, base) == base,
{
    a_path_is_a_directory_and_a_name(dir, base);
}

/// What is found in a directory below the root is asked for as the packages spell it: without the
/// root, and with a slash at its end where it is a directory. A file belongs to the first package
/// that lists it, and a directory to every one that does.
pub proof fn what_is_below_the_root_has_its_owners(
    packages: Seq<PackageView>,
    host: Host,
    root: Seq<char>,
    dir: Seq<char>,
    base: Seq<char>,
    search_path: Seq<Seq<char>>,
    known_root: String,
    known: String,
    is_directory: bool,
)
    requires
        is_tidy(dir),
        is_entry(base),
        host.there.spec_get(dir.push('/') + base) == Some(is_directory),
        host.canonical.spec_get(dir) == Some(known),
        host.canonical.spec_get(root) == Some(known_root),
        text::starts_with(within(known@, base), ended(known_root@)),
    ensures
        ({
            let query = query_of(host, root, dir.push('/') + base, search_path);
            let found = within(known@, base);
            let path = if is_directory {
                found.push('/')
            } else {
                found
            };
            let owners = owners_of_query(packages, host, query);
            &&& query.named == dir.push('/') + base
            &&& query.is_directory == is_directory
            &&& query.resolved == path
            &&& path == ended(known_root@) + query.relative
            &&& is_directory ==> owners == picks(
                packages.len() as int,
                |i: int| lists(packages, i, query.relative),
                |i: int| packages[i].name,
            )
            &&& !is_directory ==> forall|i: int| #[trigger]
                lists_first(packages, i, query.relative) ==> owners == seq![packages[i].name]
            &&& owners.len() > 0 ==> exists|i: int| #[trigger]
                lists_first(packages, i, query.relative)
        }),
{
    let target = dir.push('/') + base;
    a_path_is_a_directory_and_a_name(dir, base);
    assert(base.contains(base.last()));
    assert(target.last() == base.last());
    assert(stripped(target) == target);
    let query = query_of(host, root, target, search_path);
    let found = within(known@, base);
    assert(mostly_canonical(host, target) == found);
    let prefix = root_prefix(host, root);
    assert(prefix == ended(known_root@));
    let n = prefix.len() as int;
    assert(found =~= prefix + found.skip(n));
    assert(found.last() == base.last());
    assert(found != prefix);
    assert(found.skip(n).len() > 0);
    let relative = query.relative;
    if is_directory {
        assert(found.push('/') =~= prefix + found.skip(n).push('/'));
    }
    an_owner_lists_what_it_owns(packages, relative);
    if owners_of(packages, relative).len() > 0 {
        assert(owner_of(packages, relative) is Some);
    }
}

/// What is nowhere is a directory only where the target says so by a slash at its end.
pub proof fn a_missing_target_is_what_it_says(
    host: Host,
    root: Seq<char>,
    target: Seq<char>,
    search_path: Seq<Seq<char>>,
)
    requires
        host.there.spec_get(located(host, target, search_path)) is None,
    ensures
        query_of(host, root, target, search_path).is_directory <==> target.len() > 1
            && target.last() == '/',
{
    let slashes = only_trailing_slashes_are_cut(target);
    if target.len() > 1 && target.last() == '/' {
        let _ = only_trailing_slashes_are_cut(target.drop_last());
        assert(stripped(target).len() <= target.len() - 1);
    }
}

/// What a query asks about is the target and, for each entry of the search path that says anything,
/// the target in it, in order.
pub proof fn what_is_asked_about(target: Seq<char>, search_path: Seq<Seq<char>>)
    ensures
        asked_about(target, search_path) == seq![stripped(target)] + picks(
            search_path.len() as int,
            |i: int| search_path[i].len() > 0,
            |i: int| within(search_path[i], stripped(target)),
        ),
    decreases search_path.len(),
{
    let n = search_path.len() as int;
    let p = |i: int| search_path[i].len() > 0;
    let f = |i: int| within(search_path[i], stripped(target));
    if n > 0 {
        let fewer = search_path.drop_last();
        what_is_asked_about(target, fewer);
        lemma_picks_agree(
            n - 1,
            |i: int| fewer[i].len() > 0,
            p,
            |i: int| within(fewer[i], stripped(target)),
            f,
        );
        assert(asked_about(target, search_path) =~= seq![stripped(target)] + picks(n, p, f));
    } else {
        assert(asked_about(target, search_path) =~= seq![stripped(target)] + picks(n, p, f));
    }
}

} // verus!
