//! Which installed package owns a path.
//!
//! File-conflict detection asks it of a path a transaction is about to write. A user asks it of a
//! path already on the system. Both come down to one search of the installed packages, in the
//! order of the database.

use vstd::prelude::*;
use vstd::slice::slice_subrange;
use vstd::string::*;

use crate::conflict::filelist::FileList;
use crate::paths;
use crate::table::Table;
use crate::text;

verus! {

broadcast use crate::text::group_lists;

/// One installed package.
#[derive(Debug)]
pub struct Package {
    /// Its name.
    pub name: String,
    /// The paths it owns. Empty where they could not be read: that makes paths look unowned,
    /// which produces a conflict rather than suppressing one.
    pub files: FileList,
}

/// What a [`Package`] says: its name and its paths.
pub struct PackageView {
    /// The name.
    pub name: Seq<char>,
    /// The paths.
    pub files: Seq<Seq<char>>,
}

impl View for Package {
    type V = PackageView;

    open spec fn view(&self) -> PackageView {
        PackageView { name: self.name@, files: self.files@ }
    }
}

/// The views of a list of packages.
pub open spec fn package_views(list: Seq<Package>) -> Seq<PackageView> {
    Seq::new(list.len(), |i: int| list[i]@)
}

/// The first package named `name`, or the number of packages where there is none.
pub open spec fn index_of_name(packages: Seq<PackageView>, name: Seq<char>) -> int
    decreases packages.len(),
{
    if packages.len() == 0 || packages[0].name == name {
        0
    } else {
        1 + index_of_name(packages.skip(1), name)
    }
}

/// The paths of the first package named `name`.
pub open spec fn files_of(packages: Seq<PackageView>, name: Seq<char>) -> Option<Seq<Seq<char>>> {
    let i = index_of_name(packages, name);
    if i < packages.len() {
        Some(packages[i].files)
    } else {
        None
    }
}

/// Every package that owns `path`, spelled exactly so, in database order.
pub open spec fn owners_of(packages: Seq<PackageView>, path: Seq<char>) -> Seq<Seq<char>>
    decreases packages.len(),
{
    if packages.len() == 0 {
        Seq::empty()
    } else {
        let rest = owners_of(packages.drop_last(), path);
        if packages.last().files.contains(path) {
            rest.push(packages.last().name)
        } else {
            rest
        }
    }
}

/// The first package that owns `path`.
pub open spec fn owner_of(packages: Seq<PackageView>, path: Seq<char>) -> Option<Seq<char>> {
    let all = owners_of(packages, path);
    if all.len() > 0 {
        Some(all[0])
    } else {
        None
    }
}

/// What [`index_of_name`] is, without recursion.
pub proof fn lemma_index_of_name(packages: Seq<PackageView>, name: Seq<char>)
    ensures
        0 <= index_of_name(packages, name) <= packages.len(),
        forall|j: int|
            0 <= j < index_of_name(packages, name) ==> (#[trigger] packages[j]).name != name,
        index_of_name(packages, name) < packages.len() ==> packages[index_of_name(
            packages,
            name,
        )].name == name,
    decreases packages.len(),
{
    if packages.len() > 0 && packages[0].name != name {
        lemma_index_of_name(packages.skip(1), name);
        assert forall|j: int| 0 <= j < index_of_name(packages, name) implies (
        #[trigger] packages[j]).name != name by {
            if j > 0 {
                assert(packages[j] == packages.skip(1)[j - 1]);
            }
        }
    }
}

/// The installed packages, in database order, with an index of their names.
#[derive(Debug)]
pub struct Owners {
    packages: Vec<Package>,
    by_name: Table<usize>,
}

/// The index says where each name is first met in the first `n` packages.
spec fn indexed(packages: Seq<PackageView>, by_name: Table<usize>, n: int) -> bool {
    forall|name: Seq<char>|
        #![trigger by_name.spec_get(name)]
        match by_name.spec_get(name) {
            Some(i) => i < n && i == index_of_name(packages, name),
            None => index_of_name(packages, name) >= n,
        }
}

impl View for Owners {
    type V = Seq<PackageView>;

    /// The packages, in database order.
    closed spec fn view(&self) -> Seq<PackageView> {
        package_views(self.packages@)
    }
}

impl Owners {
    #[verifier::type_invariant]
    closed spec fn wf(self) -> bool {
        indexed(self@, self.by_name, self@.len() as int)
    }

    /// An index over `packages`.
    pub fn new(packages: Vec<Package>) -> (r: Self)
        ensures
            r@ == package_views(packages@),
    {
        let mut by_name: Table<usize> = Table::new();
        let ghost views = package_views(packages@);
        let mut i: usize = 0;
        proof {
            assert forall|name: Seq<char>| #[trigger] by_name.spec_get(name) is None && index_of_name(
                views,
                name,
            ) >= 0 by {
                lemma_index_of_name(views, name);
            }
        }
        while i < packages.len()
            invariant
                i <= packages.len(),
                views == package_views(packages@),
                indexed(views, by_name, i as int),
            decreases packages.len() - i,
        {
            let name = &packages[i].name;
            assert(views[i as int].name == name@);
            if by_name.get(name.as_str()).is_none() {
                let ghost was = by_name;
                by_name.insert(name.clone(), i);
                proof {
                    assert forall|key: Seq<char>|
                        #![trigger by_name.spec_get(key)]
                        match by_name.spec_get(key) {
                            Some(k) => k < i + 1 && k == index_of_name(views, key),
                            None => index_of_name(views, key) >= i + 1,
                        } by {
                        lemma_index_of_name(views, key);
                        let before = was.spec_get(key);
                        assert(match before {
                            Some(k) => k < i && k == index_of_name(views, key),
                            None => index_of_name(views, key) >= i,
                        });
                        if key != name@ {
                            assert(index_of_name(views, key) != i);
                        }
                    }
                }
            } else {
                proof {
                    assert forall|key: Seq<char>|
                        #![trigger by_name.spec_get(key)]
                        match by_name.spec_get(key) {
                            Some(k) => k < i + 1 && k == index_of_name(views, key),
                            None => index_of_name(views, key) >= i + 1,
                        } by {
                        lemma_index_of_name(views, key);
                        if by_name.spec_get(key) is None {
                            assert(key != name@);
                            assert(index_of_name(views, key) != i);
                        }
                    }
                }
            }
            i += 1;
        }
        Owners { packages, by_name }
    }

    /// Every installed package, in database order.
    pub fn all(&self) -> (r: &Vec<Package>)
        ensures
            package_views(r@) == self@,
    {
        &self.packages
    }

    /// The first installed package that owns `path`, spelled exactly so.
    pub fn owner_of(&self, path: &str) -> (r: Option<String>)
        ensures
            text::maybe(r) == owner_of(self@, path@),
    {
        let all = self.owners_of(path);
        let mut all = all;
        let ghost views = text::texts(all@);
        if all.len() == 0 {
            return None;
        }
        assert(views[0] == all@[0]@);
        Some(all.swap_remove(0))
    }

    /// Every installed package that owns `path`, spelled exactly so, in database order.
    pub fn owners_of(&self, path: &str) -> (r: Vec<String>)
        ensures
            text::texts(r@) == owners_of(self@, path@),
    {
        let mut out: Vec<String> = Vec::new();
        let ghost views = self@;
        let mut i: usize = 0;
        assert(text::texts(out@) =~= Seq::<Seq<char>>::empty());
        assert(views.take(0) =~= Seq::<PackageView>::empty());
        while i < self.packages.len()
            invariant
                i <= self.packages.len(),
                views == package_views(self.packages@),
                text::texts(out@) == owners_of(views.take(i as int), path@),
            decreases self.packages.len() - i,
        {
            proof {
                assert(views.take(i + 1).drop_last() =~= views.take(i as int));
                assert(views.take(i + 1).last() == views[i as int]);
            }
            if self.packages[i].files.contains(path) {
                out.push(self.packages[i].name.clone());
            }
            i += 1;
        }
        assert(views.take(views.len() as int) =~= views);
        out
    }

    /// Whether any installed package owns `path`, spelled exactly so.
    pub fn anyone_owns(&self, path: &str) -> (r: bool)
        ensures
            r == (owners_of(self@, path@).len() > 0),
    {
        let ghost views = self@;
        let mut i: usize = 0;
        assert(views.take(0) =~= Seq::<PackageView>::empty());
        while i < self.packages.len()
            invariant
                i <= self.packages.len(),
                views == package_views(self.packages@),
                owners_of(views.take(i as int), path@).len() == 0,
            decreases self.packages.len() - i,
        {
            proof {
                assert(views.take(i + 1).drop_last() =~= views.take(i as int));
                assert(views.take(i + 1).last() == views[i as int]);
            }
            if self.packages[i].files.contains(path) {
                proof {
                    lemma_owners_grow(views, path@, i + 1);
                }
                return true;
            }
            i += 1;
        }
        assert(views.take(views.len() as int) =~= views);
        false
    }

    /// The paths of the installed package named `name`, if it is installed.
    pub fn files_of(&self, name: &str) -> (r: Option<&FileList>)
        ensures
            match r {
                Some(files) => files_of(self@, name@) == Some(files@),
                None => files_of(self@, name@) is None,
            },
    {
        proof {
            use_type_invariant(self);
            lemma_index_of_name(self@, name@);
        }
        match self.by_name.get(name) {
            Some(i) => Some(&self.packages[*i].files),
            None => None,
        }
    }
}

/// More packages have at least as many owners.
proof fn lemma_owners_grow(packages: Seq<PackageView>, path: Seq<char>, n: int)
    requires
        0 <= n <= packages.len(),
    ensures
        owners_of(packages.take(n), path).len() <= owners_of(packages, path).len(),
    decreases packages.len(),
{
    if n < packages.len() {
        lemma_owners_grow(packages.drop_last(), path, n);
        assert(packages.drop_last().take(n) =~= packages.take(n));
    } else {
        assert(packages.take(n) =~= packages);
    }
}

// ---------------------------------------------------------------------------------------------
// Asking about a path on the host

/// What the host's filesystem answers about the paths a query asks for.
#[derive(Debug)]
pub struct Host {
    /// For each path that is there, from an `lstat`, whether it is a directory. A symlink to a
    /// directory is none.
    pub there: Table<bool>,
    /// For each path that can be canonicalized, what it comes to.
    pub canonical: Table<String>,
}

/// An owner query's target, resolved against the host filesystem and the installation root.
#[derive(Clone, Debug, Eq, PartialEq)]
pub struct Query {
    /// The absolute path an answer names: canonicalized, with a directory's trailing `/`.
    pub resolved: String,
    /// The same path relative to the installation root, which is how a file list spells it.
    ///
    /// Empty when the target resolved to the root itself, and empty when it resolved outside the
    /// root. Both mean no package can own it.
    pub relative: String,
    /// The target as a refusal names it: after trailing slashes come off, and after a hit in the
    /// search path replaced it.
    pub named: String,
    /// Whether the path names a directory.
    pub is_directory: bool,
}

/// What a [`Query`] holds.
pub struct QueryView {
    /// The absolute path.
    pub resolved: Seq<char>,
    /// The path relative to the root.
    pub relative: Seq<char>,
    /// The target as a refusal names it.
    pub named: Seq<char>,
    /// Whether the path names a directory.
    pub is_directory: bool,
}

impl View for Query {
    type V = QueryView;

    open spec fn view(&self) -> QueryView {
        QueryView {
            resolved: self.resolved@,
            relative: self.relative@,
            named: self.named@,
            is_directory: self.is_directory,
        }
    }
}

/// A target, resolved, with every installed package that owns it.
#[derive(Clone, Debug, Eq, PartialEq)]
pub struct Answer {
    /// What the target resolved to.
    pub query: Query,
    /// The owning packages, in database order. Empty when nothing owns the path.
    pub owners: Vec<String>,
}

/// Why a query cannot be answered.
#[derive(Clone, Copy, Debug, Eq, PartialEq, Structural)]
pub enum QueryError {
    /// The target is empty.
    EmptyOwnerTarget,
}

/// A target without its trailing slashes. `/` stays `/`.
pub open spec fn stripped(target: Seq<char>) -> Seq<char>
    decreases target.len(),
{
    if target.len() > 1 && target.last() == '/' {
        stripped(target.drop_last())
    } else {
        target
    }
}

/// The first path in the search path that is there, from the entry `i` on. An empty entry is
/// skipped: the target was tried as it is given already.
pub open spec fn search(
    host: Host,
    name: Seq<char>,
    search_path: Seq<Seq<char>>,
    i: int,
) -> Option<Seq<char>>
    decreases search_path.len() - i,
{
    if i >= search_path.len() {
        None
    } else if search_path[i].len() > 0 && host.there.spec_get(paths::joined(search_path[i], name))
        is Some {
        Some(paths::joined(search_path[i], name))
    } else {
        search(host, name, search_path, i + 1)
    }
}

/// The path a target names: itself, or what the search path holds where it names nothing and has
/// no `/`.
pub open spec fn located(host: Host, target: Seq<char>, search_path: Seq<Seq<char>>) -> Seq<char> {
    let bare = stripped(target);
    if host.there.spec_get(bare) is None && !bare.contains('/') {
        match search(host, bare, search_path, 0) {
            Some(at) => at,
            None => bare,
        }
    } else {
        bare
    }
}

/// What a path comes to with every component but the last one canonicalized. One that names no
/// entry of a directory is canonicalized whole, and one that cannot be is left as it is.
pub open spec fn mostly_canonical(host: Host, path: Seq<char>) -> Seq<char> {
    match paths::spec_file_name(path) {
        None => match host.canonical.spec_get(path) {
            Some(whole) => whole@,
            None => path,
        },
        Some(base) => {
            let parent = if paths::spec_parent(path).len() == 0 {
                "."@
            } else {
                paths::spec_parent(path)
            };
            match host.canonical.spec_get(parent) {
                Some(parent) => paths::joined(parent@, base),
                None => path,
            }
        },
    }
}

/// A directory's path, ending in `/`.
pub open spec fn slashed(path: Seq<char>) -> Seq<char> {
    if path.len() > 0 && path.last() == '/' {
        path
    } else {
        path.push('/')
    }
}

/// The installation root as a prefix, canonicalized and ending in `/`.
pub open spec fn root_prefix(host: Host, root: Seq<char>) -> Seq<char> {
    slashed(
        match host.canonical.spec_get(root) {
            Some(whole) => whole@,
            None => root,
        },
    )
}

/// What a target resolves to.
pub open spec fn query_of(
    host: Host,
    root: Seq<char>,
    target: Seq<char>,
    search_path: Seq<Seq<char>>,
) -> QueryView {
    let named = located(host, target, search_path);
    let is_directory = match host.there.spec_get(named) {
        Some(is_directory) => is_directory,
        None => stripped(target) != target,
    };
    let resolved = mostly_canonical(host, named);
    let relative = match text::strip_prefix(resolved, root_prefix(host, root)) {
        Some(relative) => relative,
        None => Seq::empty(),
    };
    let open = is_directory && !(resolved.len() > 0 && resolved.last() == '/');
    QueryView {
        resolved: if open {
            resolved.push('/')
        } else {
            resolved
        },
        relative: if open && relative.len() > 0 {
            relative.push('/')
        } else {
            relative
        },
        named,
        is_directory,
    }
}

/// Who owns what a target resolves to: the first owner of a file, every owner of a directory.
/// Nobody owns what is not there.
pub open spec fn owners_of_query(packages: Seq<PackageView>, host: Host, query: QueryView) -> Seq<
    Seq<char>,
> {
    if query.relative.len() == 0 || host.there.spec_get(query.named) is None {
        Seq::empty()
    } else if query.is_directory {
        owners_of(packages, query.relative)
    } else {
        match owner_of(packages, query.relative) {
            Some(owner) => seq![owner],
            None => Seq::empty(),
        }
    }
}

impl Owners {
    /// Resolves `target` and names every installed package that owns it.
    ///
    /// A file names its first owner only, and a directory names all of them: two packages sharing a
    /// directory is ordinary, while two packages owning one file is a broken database.
    ///
    /// Only an empty target is an error. A path outside `root`, one that does not exist and one
    /// that nothing ships have no owners, which answers the question that was asked.
    pub fn query(&self, host: &Host, root: &str, target: &str, search_path: &Vec<String>) -> (r:
        Result<Answer, QueryError>)
        ensures
            match r {
                Ok(answer) => {
                    &&& target@.len() > 0
                    &&& answer.query@ == query_of(
                        *host,
                        root@,
                        target@,
                        text::texts(search_path@),
                    )
                    &&& text::texts(answer.owners@) == owners_of_query(
                        self@,
                        *host,
                        answer.query@,
                    )
                },
                Err(error) => target@.len() == 0 && error == QueryError::EmptyOwnerTarget,
            },
    {
        let query = match resolve(host, root, target, search_path) {
            Ok(query) => query,
            Err(error) => {
                return Err(error);
            },
        };
        let mut owners: Vec<String> = Vec::new();
        assert(text::texts(owners@) =~= Seq::<Seq<char>>::empty());
        if query.relative.as_str().unicode_len() > 0 && host.there.get(
            query.named.as_str(),
        ).is_some() {
            if query.is_directory {
                owners = self.owners_of(query.relative.as_str());
            } else if let Some(owner) = self.owner_of(query.relative.as_str()) {
                owners.push(owner);
                assert(text::texts(owners@) =~= seq![owner@]);
            }
        }
        Ok(Answer { query, owners })
    }
}

/// A target without its trailing slashes.
fn strip_slashes<'a>(target: &'a [char]) -> (r: &'a [char])
    ensures
        r@ == stripped(target@),
        r.len() <= target.len(),
        r.len() == target.len() ==> r@ == target@,
{
    let mut n: usize = target.len();
    assert(target@.take(n as int) =~= target@);
    while n > 1 && target[n - 1] == '/'
        invariant
            n <= target.len(),
            stripped(target@) == stripped(target@.take(n as int)),
        decreases n,
    {
        assert(target@.take(n as int).drop_last() =~= target@.take(n - 1));
        n -= 1;
    }
    let r = slice_subrange(target, 0, n);
    assert(r@ =~= target@.take(n as int));
    r
}

/// The first path in the search path that is there.
fn search_path_for(host: &Host, name: &str, search_path: &Vec<String>) -> (r: Option<String>)
    ensures
        text::maybe(r) == search(*host, name@, text::texts(search_path@), 0),
{
    let ghost all = text::texts(search_path@);
    let mut i: usize = 0;
    while i < search_path.len()
        invariant
            i <= search_path.len(),
            all == text::texts(search_path@),
            search(*host, name@, all, 0) == search(*host, name@, all, i as int),
        decreases search_path.len() - i,
    {
        let directory = search_path[i].as_str();
        assert(all[i as int] == directory@);
        if directory.unicode_len() > 0 {
            let candidate = paths::join(directory, name);
            if host.there.get(candidate.as_str()).is_some() {
                return Some(candidate);
            }
        }
        i += 1;
    }
    None
}

/// What a path comes to with every component but the last one canonicalized.
///
/// The last component is never dereferenced, so a symlink's owner is the package that ships the
/// link, not the package that ships what it points at.
fn canonicalize_partially(host: &Host, path: &str) -> (r: String)
    ensures
        r@ == mostly_canonical(*host, path@),
{
    let all = text::chars(path);
    match paths::file_name(all.as_slice()) {
        None => match host.canonical.get(path) {
            Some(whole) => whole.clone(),
            None => path.to_owned(),
        },
        Some(base) => {
            let above = paths::parent(all.as_slice());
            let parent = if above.len() == 0 {
                ".".to_owned()
            } else {
                text::text(above)
            };
            match host.canonical.get(parent.as_str()) {
                Some(parent) => paths::join(parent.as_str(), text::text(base).as_str()),
                None => path.to_owned(),
            }
        },
    }
}

/// Whether a text ends in `/`.
fn ends_in_slash(path: &str) -> (r: bool)
    ensures
        r == (path@.len() > 0 && path@.last() == '/'),
{
    let n = path.unicode_len();
    n > 0 && path.get_char(n - 1) == '/'
}

/// Resolves `target` to the key a file list would spell for it.
pub fn resolve(host: &Host, root: &str, target: &str, search_path: &Vec<String>) -> (r: Result<
    Query,
    QueryError,
>)
    ensures
        match r {
            Ok(query) => target@.len() > 0 && query@ == query_of(
                *host,
                root@,
                target@,
                text::texts(search_path@),
            ),
            Err(error) => target@.len() == 0 && error == QueryError::EmptyOwnerTarget,
        },
{
    let all = text::chars(target);
    if all.len() == 0 {
        return Err(QueryError::EmptyOwnerTarget);
    }
    let bare = strip_slashes(all.as_slice());
    let shortened = bare.len() < all.len();
    proof {
        if shortened {
            assert(stripped(target@).len() != target@.len());
        }
    }
    let slash = text::holds(bare, '/');
    let mut named = text::text(bare);
    if host.there.get(named.as_str()).is_none() && !slash {
        if let Some(at) = search_path_for(host, named.as_str(), search_path) {
            named = at;
        }
    }
    let is_directory = match host.there.get(named.as_str()) {
        Some(is_directory) => *is_directory,
        None => shortened,
    };
    let mut resolved = canonicalize_partially(host, named.as_str());
    let mut prefix = match host.canonical.get(root) {
        Some(whole) => whole.clone(),
        None => root.to_owned(),
    };
    if !ends_in_slash(prefix.as_str()) {
        prefix.push('/');
    }
    let whole = text::chars(resolved.as_str());
    let mut relative = match text::after_text(whole.as_slice(), prefix.as_str()) {
        Some(relative) => text::text(relative),
        None => {
            let none = String::new();
            assert(none@ =~= Seq::<char>::empty());
            none
        },
    };
    if is_directory && !ends_in_slash(resolved.as_str()) {
        resolved.push('/');
        if relative.as_str().unicode_len() > 0 {
            relative.push('/');
        }
    }
    Ok(Query { resolved, relative, named, is_directory })
}

/// The paths that a query asks the host about: the target, and where it is in the first entries of
/// the search path.
pub open spec fn asked_about(target: Seq<char>, search_path: Seq<Seq<char>>) -> Seq<Seq<char>>
    decreases search_path.len(),
{
    if search_path.len() == 0 {
        seq![stripped(target)]
    } else {
        let before = asked_about(target, search_path.drop_last());
        if search_path.last().len() > 0 {
            before.push(paths::joined(search_path.last(), stripped(target)))
        } else {
            before
        }
    }
}

/// The path that has to be canonicalized for another.
pub open spec fn canonical_question(path: Seq<char>) -> Seq<char> {
    match paths::spec_file_name(path) {
        None => path,
        Some(_) => if paths::spec_parent(path).len() == 0 {
            "."@
        } else {
            paths::spec_parent(path)
        },
    }
}

/// The paths that a query asks the host about.
pub fn questions(target: &str, search_path: &Vec<String>) -> (r: Vec<String>)
    ensures
        text::texts(r@) == asked_about(target@, text::texts(search_path@)),
{
    let all = text::chars(target);
    let bare = text::text(strip_slashes(all.as_slice()));
    let ghost entries = text::texts(search_path@);
    let mut out: Vec<String> = Vec::new();
    out.push(bare.clone());
    let mut i: usize = 0;
    proof {
        assert(entries.take(0) =~= Seq::<Seq<char>>::empty());
        assert(text::texts(out@) =~= seq![stripped(target@)]);
    }
    while i < search_path.len()
        invariant
            i <= search_path.len(),
            entries == text::texts(search_path@),
            bare@ == stripped(target@),
            text::texts(out@) == asked_about(target@, entries.take(i as int)),
        decreases search_path.len() - i,
    {
        let directory = search_path[i].as_str();
        proof {
            let so_far = entries.take(i + 1);
            assert(so_far.drop_last() =~= entries.take(i as int));
            assert(so_far.last() == directory@);
        }
        if directory.unicode_len() > 0 {
            out.push(paths::join(directory, bare.as_str()));
        }
        i += 1;
    }
    assert(entries.take(i as int) =~= entries);
    out
}

/// The path that has to be canonicalized for another.
pub fn to_canonicalize(path: &str) -> (r: String)
    ensures
        r@ == canonical_question(path@),
{
    let all = text::chars(path);
    match paths::file_name(all.as_slice()) {
        None => path.to_owned(),
        Some(_) => {
            let above = paths::parent(all.as_slice());
            if above.len() == 0 {
                ".".to_owned()
            } else {
                text::text(above)
            }
        },
    }
}

// ---------------------------------------------------------------------------------------------
// Laws

/// A file has at most one owner in an answer, and it is one of those that own the path.
pub proof fn a_file_names_its_first_owner(packages: Seq<PackageView>, host: Host, query: QueryView)
    requires
        !query.is_directory,
    ensures
        owners_of_query(packages, host, query).len() <= 1,
        owners_of_query(packages, host, query).len() == 1 ==> owners_of(packages, query.relative)[0]
            == owners_of_query(packages, host, query)[0],
{
}

/// What resolves to the root itself or outside of it has no owner.
pub proof fn nothing_outside_the_root_is_owned(
    packages: Seq<PackageView>,
    host: Host,
    root: Seq<char>,
    target: Seq<char>,
    search_path: Seq<Seq<char>>,
)
    requires
        !text::starts_with(
            mostly_canonical(host, located(host, target, search_path)),
            root_prefix(host, root),
        ) || mostly_canonical(host, located(host, target, search_path)) == root_prefix(host, root),
    ensures
        owners_of_query(
            packages,
            host,
            query_of(host, root, target, search_path),
        ).len() == 0,
{
    let resolved = mostly_canonical(host, located(host, target, search_path));
    let prefix = root_prefix(host, root);
    if let Some(relative) = text::strip_prefix(resolved, prefix) {
        assert(relative.len() == 0);
    }
}

/// What is not there has no owner, even where a file list names it.
pub proof fn nothing_missing_is_owned(
    packages: Seq<PackageView>,
    host: Host,
    root: Seq<char>,
    target: Seq<char>,
    search_path: Seq<Seq<char>>,
)
    requires
        host.there.spec_get(located(host, target, search_path)) is None,
    ensures
        owners_of_query(
            packages,
            host,
            query_of(host, root, target, search_path),
        ).len() == 0,
{
}

/// However many slashes a target ends in, the same path is asked about.
pub proof fn trailing_slashes_do_not_move_a_target(
    host: Host,
    target: Seq<char>,
    search_path: Seq<Seq<char>>,
)
    requires
        target.len() > 0,
    ensures
        located(host, target.push('/'), search_path) == located(host, target, search_path),
{
    assert(target.push('/').drop_last() =~= target);
}

/// Whether two hosts say the same of the root and of every path that a query asks about.
pub open spec fn agree(
    a: Host,
    b: Host,
    root: Seq<char>,
    target: Seq<char>,
    search_path: Seq<Seq<char>>,
) -> bool {
    &&& a.canonical.spec_get(root) == b.canonical.spec_get(root)
    &&& forall|i: int|
        0 <= i < asked_about(target, search_path).len() ==> {
            let path = #[trigger] asked_about(target, search_path)[i];
            &&& a.there.spec_get(path) == b.there.spec_get(path)
            &&& a.canonical.spec_get(canonical_question(path)) == b.canonical.spec_get(
                canonical_question(path),
            )
        }
}

/// The entries of a search path are asked about.
proof fn lemma_asked(target: Seq<char>, search_path: Seq<Seq<char>>, i: int)
    requires
        0 <= i < search_path.len(),
        search_path[i].len() > 0,
    ensures
        asked_about(target, search_path).contains(
            paths::joined(search_path[i], stripped(target)),
        ),
    decreases search_path.len(),
{
    let fewer = search_path.drop_last();
    let path = paths::joined(search_path[i], stripped(target));
    if i < fewer.len() {
        lemma_asked(target, fewer, i);
        let k = choose|k: int|
            0 <= k < asked_about(target, fewer).len() && asked_about(target, fewer)[k] == path;
        assert(asked_about(target, search_path)[k] == path);
    } else {
        assert(asked_about(target, search_path)[asked_about(target, fewer).len() as int] == path);
    }
}

/// The target itself is asked about first.
proof fn lemma_asked_first(target: Seq<char>, search_path: Seq<Seq<char>>)
    ensures
        asked_about(target, search_path).len() > 0,
        asked_about(target, search_path)[0] == stripped(target),
    decreases search_path.len(),
{
    if search_path.len() > 0 {
        lemma_asked_first(target, search_path.drop_last());
    }
}

/// Two hosts that say the same of what is asked find the same in the search path, and it was asked
/// about.
proof fn lemma_search_agrees(
    a: Host,
    b: Host,
    root: Seq<char>,
    target: Seq<char>,
    search_path: Seq<Seq<char>>,
    i: int,
)
    requires
        agree(a, b, root, target, search_path),
        0 <= i <= search_path.len(),
    ensures
        search(a, stripped(target), search_path, i) == search(b, stripped(target), search_path, i),
        search(a, stripped(target), search_path, i) matches Some(path) ==> asked_about(
            target,
            search_path,
        ).contains(path),
    decreases search_path.len() - i,
{
    if i < search_path.len() {
        lemma_search_agrees(a, b, root, target, search_path, i + 1);
        if search_path[i].len() > 0 {
            lemma_asked(target, search_path, i);
            let path = paths::joined(search_path[i], stripped(target));
            let k = choose|k: int|
                0 <= k < asked_about(target, search_path).len() && asked_about(
                    target,
                    search_path,
                )[k] == path;
            assert(a.there.spec_get(asked_about(target, search_path)[k]) == b.there.spec_get(path));
        }
    }
}

/// A query depends on nothing but what it asks about: two hosts that say the same of that get the
/// same answer.
pub proof fn the_questions_suffice(
    a: Host,
    b: Host,
    root: Seq<char>,
    target: Seq<char>,
    search_path: Seq<Seq<char>>,
)
    requires
        agree(a, b, root, target, search_path),
    ensures
        query_of(a, root, target, search_path) == query_of(b, root, target, search_path),
        forall|packages: Seq<PackageView>| #[trigger]
            owners_of_query(packages, a, query_of(a, root, target, search_path))
                == owners_of_query(packages, b, query_of(b, root, target, search_path)),
{
    let asked = asked_about(target, search_path);
    lemma_asked_first(target, search_path);
    lemma_search_agrees(a, b, root, target, search_path, 0);
    assert(a.there.spec_get(asked[0]) == b.there.spec_get(asked[0]));
    let named = located(a, target, search_path);
    assert(named == located(b, target, search_path));
    assert(asked.contains(named)) by {
        if named == stripped(target) {
            assert(asked[0] == named);
        }
    }
    let k = choose|k: int| 0 <= k < asked.len() && asked[k] == named;
    assert(a.there.spec_get(asked[k]) == b.there.spec_get(named));
    assert(a.canonical.spec_get(canonical_question(named)) == b.canonical.spec_get(
        canonical_question(named),
    ));
}

} // verus!
