//! Turns a solved plan into a transaction: steps to carry out, where each incoming package can be
//! downloaded from, and under what signature policy.

use vstd::prelude::*;

use crate::error::Error;
use crate::package::{
    is_full_version, is_name, known_name, known_version, EntryName, EntryNameView, InstallReason,
};
use crate::table::{Table, TextSet};
use crate::text;

verus! {

broadcast use crate::text::group_lists;

/// What a repository says of a package.
#[derive(Clone, Debug)]
pub enum RepositoryDesc {
    /// The package's cache file name.
    FileName(String),
    /// Its description cannot be read, and why.
    Unreadable(String),
}

/// Where a candidate comes from.
#[derive(Clone, Debug)]
pub enum Origin {
    /// It is installed.
    Installed,
    /// It is in a repository.
    Repository {
        /// The repository, counted among those that opened.
        index: usize,
        /// What the repository says of it.
        desc: RepositoryDesc,
        /// The size of its file in bytes.
        compressed_size: u64,
    },
}

/// One package the solver knows.
#[derive(Clone, Debug)]
pub struct Solvable {
    /// Its name.
    pub name: String,
    /// Its version.
    pub version: String,
    /// Where it comes from.
    pub origin: Origin,
    /// Why it is installed, where it is.
    pub install_reason: Option<InstallReason>,
}

/// Everything the solver knows. A package is addressed by its position.
#[derive(Clone, Debug)]
pub struct Universe {
    /// The packages.
    pub solvables: Vec<Solvable>,
    /// The names of the repositories that opened.
    pub repository_names: Vec<String>,
}

/// One step of a solved plan.
#[derive(Clone, Copy, Debug, Eq, PartialEq, Structural)]
pub enum SolveStep {
    /// A package goes.
    Remove {
        /// The installed package.
        package: usize,
    },
    /// A package comes.
    Install {
        /// The candidate.
        candidate: usize,
    },
    /// A package replaces its installed version.
    Change {
        /// The installed package.
        from: usize,
        /// The candidate.
        to: usize,
    },
}

/// One step of a transaction.
#[derive(Debug)]
pub enum Step {
    /// Install a package.
    Install {
        /// Its cache file name.
        package: String,
        /// Why it is installed.
        reason: InstallReason,
    },
    /// Remove a package.
    Remove {
        /// Its entry.
        entry: EntryName,
        /// Whether to remove edited backup files instead of keeping them.
        no_save: bool,
    },
}

/// What a [`Step`] holds.
pub enum StepView {
    /// [`Step::Install`].
    Install {
        /// Its cache file name.
        package: Seq<char>,
        /// Why it is installed.
        reason: InstallReason,
    },
    /// [`Step::Remove`].
    Remove {
        /// Its entry.
        entry: EntryNameView,
        /// Whether to remove edited backup files.
        no_save: bool,
    },
}

impl View for Step {
    type V = StepView;

    open spec fn view(&self) -> StepView {
        match self {
            Step::Install { package, reason } => StepView::Install {
                package: package@,
                reason: *reason,
            },
            Step::Remove { entry, no_save } => StepView::Remove { entry: entry@, no_save: *no_save },
        }
    }
}

/// The views of a list of steps.
pub open spec fn step_views(list: Seq<Step>) -> Seq<StepView> {
    Seq::new(list.len(), |i: int| list[i]@)
}

/// The reason recorded for one incoming package: it was asked for by name, unless the user wants
/// it as a dependency; one that was installed keeps its reason; any other is a dependency.
pub open spec fn reason_of(
    candidate: usize,
    targets: Seq<usize>,
    as_deps: bool,
    previous: Option<InstallReason>,
) -> InstallReason {
    if targets.contains(candidate) && !as_deps {
        InstallReason::Explicit
    } else {
        match previous {
            Some(reason) => reason,
            None => InstallReason::Depend,
        }
    }
}

/// The reason recorded for one incoming package.
pub fn reason_for(
    candidate: usize,
    targets: &Vec<usize>,
    as_deps: bool,
    previous: Option<InstallReason>,
) -> (r: InstallReason)
    ensures
        r == reason_of(candidate, targets@, as_deps, previous),
{
    if is_target(candidate, targets) && !as_deps {
        return InstallReason::Explicit;
    }
    match previous {
        Some(reason) => reason,
        None => InstallReason::Depend,
    }
}

/// Whether a candidate was asked for by name.
fn is_target(candidate: usize, targets: &Vec<usize>) -> (r: bool)
    ensures
        r == targets@.contains(candidate),
{
    let mut i: usize = 0;
    while i < targets.len()
        invariant
            i <= targets.len(),
            forall|k: int| 0 <= k < i ==> targets@[k] != candidate,
        decreases targets.len() - i,
    {
        if targets[i] == candidate {
            return true;
        }
        i += 1;
    }
    false
}

/// What a step of a plan cannot be turned into a step of a transaction for.
pub enum Flaw {
    /// The plan names something unknown.
    Inconsistent {
        /// What it names.
        id: usize,
    },
    /// The plan installs what no repository has.
    NoCandidate {
        /// The package.
        name: Seq<char>,
    },
    /// The repository's package cannot be read.
    Unreadable {
        /// The package.
        name: Seq<char>,
        /// Why not.
        source: Seq<char>,
    },
    /// A package's name and version make no entry.
    NoEntry {
        /// The package.
        name: Seq<char>,
    },
}

/// Whether an error says what a flaw is.
pub open spec fn reports(error: Error, flaw: Flaw) -> bool {
    match flaw {
        Flaw::Inconsistent { id } => error matches Error::PlanInconsistent { id: at } && at == id,
        Flaw::NoCandidate { name } => error matches Error::NoRepositoryCandidate { name: at }
            && at@ == name,
        Flaw::Unreadable { name, source } => error matches Error::RepositoryPackageUnreadable {
            name: at,
            source: why,
        } && at@ == name && why@ == source,
        Flaw::NoEntry { name } => error matches Error::InvalidEntryName { name: at, reason } && at@
            == name && reason@ == "it is not a package name and a full version"@,
    }
}

/// The cache file name a repository candidate is installed from.
pub open spec fn file_name_in(universe: Universe, id: usize) -> Result<Seq<char>, Flaw> {
    if id >= universe.solvables@.len() {
        Err(Flaw::Inconsistent { id })
    } else {
        let candidate = universe.solvables@[id as int];
        match candidate.origin {
            Origin::Installed => Err(Flaw::NoCandidate { name: candidate.name@ }),
            Origin::Repository { desc: RepositoryDesc::FileName(name), .. } => Ok(name@),
            Origin::Repository { desc: RepositoryDesc::Unreadable(source), .. } => Err(
                Flaw::Unreadable { name: candidate.name@, source: source@ },
            ),
        }
    }
}

/// The installed entry a removal step names.
pub open spec fn entry_in(universe: Universe, id: usize) -> Result<EntryNameView, Flaw> {
    if id >= universe.solvables@.len() {
        Err(Flaw::Inconsistent { id })
    } else {
        let candidate = universe.solvables@[id as int];
        if is_name(candidate.name@) && is_full_version(candidate.version@) {
            Ok(EntryNameView { name: candidate.name@, version: candidate.version@ })
        } else {
            Err(Flaw::NoEntry { name: candidate.name@ })
        }
    }
}

/// The reason an installed package has.
pub open spec fn reason_in(universe: Universe, id: usize) -> Option<InstallReason> {
    if id < universe.solvables@.len() {
        universe.solvables@[id as int].install_reason
    } else {
        None
    }
}

/// What a step of a plan comes to.
pub open spec fn step_of(
    universe: Universe,
    step: SolveStep,
    targets: Seq<usize>,
    as_deps: bool,
) -> Result<StepView, Flaw> {
    match step {
        SolveStep::Remove { package } => match entry_in(universe, package) {
            Ok(entry) => Ok(StepView::Remove { entry, no_save: false }),
            Err(flaw) => Err(flaw),
        },
        SolveStep::Install { candidate } => match file_name_in(universe, candidate) {
            Ok(package) => Ok(
                StepView::Install {
                    package,
                    reason: reason_of(candidate, targets, as_deps, None),
                },
            ),
            Err(flaw) => Err(flaw),
        },
        SolveStep::Change { from, to } => match file_name_in(universe, to) {
            Ok(package) => Ok(
                StepView::Install {
                    package,
                    reason: reason_of(to, targets, as_deps, reason_in(universe, from)),
                },
            ),
            Err(flaw) => Err(flaw),
        },
    }
}

/// What the first steps of a plan come to, or the first flaw.
pub open spec fn steps_of(
    universe: Universe,
    built: Seq<SolveStep>,
    targets: Seq<usize>,
    as_deps: bool,
) -> Result<Seq<StepView>, Flaw>
    decreases built.len(),
{
    if built.len() == 0 {
        Ok(Seq::empty())
    } else {
        match steps_of(universe, built.drop_last(), targets, as_deps) {
            Err(flaw) => Err(flaw),
            Ok(before) => match step_of(universe, built.last(), targets, as_deps) {
                Ok(step) => Ok(before.push(step)),
                Err(flaw) => Err(flaw),
            },
        }
    }
}

/// The cache file name a repository candidate is installed from.
fn file_name_of(universe: &Universe, id: usize) -> (r: Result<String, Error>)
    ensures
        match r {
            Ok(name) => file_name_in(*universe, id) == Ok::<Seq<char>, Flaw>(name@),
            Err(error) => file_name_in(*universe, id) is Err && reports(
                error,
                file_name_in(*universe, id)->Err_0,
            ),
        },
{
    if id >= universe.solvables.len() {
        return Err(Error::PlanInconsistent { id });
    }
    let candidate = &universe.solvables[id];
    match &candidate.origin {
        Origin::Installed => Err(Error::NoRepositoryCandidate { name: candidate.name.clone() }),
        Origin::Repository { index: _, desc, compressed_size: _ } => match desc {
            RepositoryDesc::FileName(name) => Ok(name.clone()),
            RepositoryDesc::Unreadable(source) => Err(
                Error::RepositoryPackageUnreadable {
                    name: candidate.name.clone(),
                    source: source.clone(),
                },
            ),
        },
    }
}

/// The installed entry a removal step names, given whether its name and version are well formed.
pub fn entry_of_candidate(candidate: &Solvable, known: bool) -> (r: Result<EntryName, Error>)
    ensures
        match r {
            Ok(entry) => known && entry@ == (EntryNameView {
                name: candidate.name@,
                version: candidate.version@,
            }),
            Err(error) => !known && reports(error, Flaw::NoEntry { name: candidate.name@ }),
        },
{
    match EntryName::checked(candidate.name.clone(), candidate.version.clone(), known) {
        Some(entry) => Ok(entry),
        None => Err(
            Error::InvalidEntryName {
                name: candidate.name.clone(),
                reason: "it is not a package name and a full version".to_owned(),
            },
        ),
    }
}

/// The installed entry a removal step names.
fn entry_name_of(universe: &Universe, id: usize) -> (r: Result<EntryName, Error>)
    ensures
        match r {
            Ok(entry) => entry_in(*universe, id) == Ok::<EntryNameView, Flaw>(entry@),
            Err(error) => entry_in(*universe, id) is Err && reports(
                error,
                entry_in(*universe, id)->Err_0,
            ),
        },
{
    if id >= universe.solvables.len() {
        return Err(Error::PlanInconsistent { id });
    }
    let candidate = &universe.solvables[id];
    let known = known_name(candidate.name.as_str()) && known_version(candidate.version.as_str());
    entry_of_candidate(candidate, known)
}

/// One step of a plan.
fn turn(universe: &Universe, step: SolveStep, targets: &Vec<usize>, as_deps: bool) -> (r: Result<
    Step,
    Error,
>)
    ensures
        match r {
            Ok(done) => step_of(*universe, step, targets@, as_deps) == Ok::<StepView, Flaw>(done@),
            Err(error) => step_of(*universe, step, targets@, as_deps) is Err && reports(
                error,
                step_of(*universe, step, targets@, as_deps)->Err_0,
            ),
        },
{
    match step {
        SolveStep::Remove { package } => match entry_name_of(universe, package) {
            Ok(entry) => Ok(Step::Remove { entry, no_save: false }),
            Err(error) => Err(error),
        },
        SolveStep::Install { candidate } => {
            let reason = reason_for(candidate, targets, as_deps, None);
            match file_name_of(universe, candidate) {
                Ok(package) => Ok(Step::Install { package, reason }),
                Err(error) => Err(error),
            }
        },
        SolveStep::Change { from, to } => {
            let previous = if from < universe.solvables.len() {
                universe.solvables[from].install_reason
            } else {
                None
            };
            let reason = reason_for(to, targets, as_deps, previous);
            match file_name_of(universe, to) {
                Ok(package) => Ok(Step::Install { package, reason }),
                Err(error) => Err(error),
            }
        },
    }
}

/// Turns a solved plan into steps, resolving each incoming candidate's cache file name.
///
/// It fails where the plan and the universe disagree about what a step names. This should not
/// happen, since one was assembled from the other; it is checked rather than assumed.
pub fn install_steps(
    universe: &Universe,
    built: &Vec<SolveStep>,
    targets: &Vec<usize>,
    as_deps: bool,
) -> (r: Result<Vec<Step>, Error>)
    ensures
        match r {
            Ok(steps) => steps_of(*universe, built@, targets@, as_deps) == Ok::<
                Seq<StepView>,
                Flaw,
            >(step_views(steps@)),
            Err(error) => steps_of(*universe, built@, targets@, as_deps) is Err && reports(
                error,
                steps_of(*universe, built@, targets@, as_deps)->Err_0,
            ),
        },
{
    let mut steps: Vec<Step> = Vec::new();
    let mut i: usize = 0;
    assert(built@.take(0) =~= Seq::<SolveStep>::empty());
    assert(step_views(steps@) =~= Seq::<StepView>::empty());
    while i < built.len()
        invariant
            i <= built.len(),
            steps_of(*universe, built@.take(i as int), targets@, as_deps) == Ok::<
                Seq<StepView>,
                Flaw,
            >(step_views(steps@)),
        decreases built.len() - i,
    {
        let ghost before = step_views(steps@);
        proof {
            let so_far = built@.take(i + 1);
            assert(so_far.drop_last() =~= built@.take(i as int));
        }
        match turn(universe, built[i], targets, as_deps) {
            Ok(step) => {
                steps.push(step);
                assert(step_views(steps@) =~= before.push(step@));
            },
            Err(error) => {
                proof {
                    lemma_flawed(*universe, built@, targets@, as_deps, i + 1);
                }
                return Err(error);
            },
        }
        i += 1;
    }
    assert(built@.take(i as int) =~= built@);
    Ok(steps)
}

/// Nothing after a flaw matters.
proof fn lemma_flawed(
    universe: Universe,
    built: Seq<SolveStep>,
    targets: Seq<usize>,
    as_deps: bool,
    n: int,
)
    requires
        0 <= n <= built.len(),
        steps_of(universe, built.take(n), targets, as_deps) is Err,
    ensures
        steps_of(universe, built, targets, as_deps) == steps_of(
            universe,
            built.take(n),
            targets,
            as_deps,
        ),
    decreases built.len() - n,
{
    if n == built.len() {
        assert(built.take(n) =~= built);
    } else {
        assert(built.take(n + 1).drop_last() =~= built.take(n));
        lemma_flawed(universe, built, targets, as_deps, n + 1);
    }
}

// ---------------------------------------------------------------------------------------------
// Downloads

/// What is asked of a package's signature.
#[derive(Clone, Copy, Debug, Eq, PartialEq, Structural)]
pub struct Policy {
    /// Whether signatures are checked at all.
    pub check: bool,
    /// Whether a missing one is accepted.
    pub optional: bool,
}

/// One repository's configuration.
#[derive(Clone, Debug)]
pub struct RepositoryConfig {
    /// Its name.
    pub name: String,
    /// Its `Server` lines.
    pub servers: Vec<String>,
    /// Its `CacheServer` lines.
    pub cache_servers: Vec<String>,
    /// What its effective `SigLevel` asks of a package.
    pub policy: Policy,
}

/// Where a package file can be downloaded from, and under what policy.
#[derive(Debug)]
pub struct DownloadTarget {
    /// The repository.
    pub repo_name: String,
    /// Its servers.
    pub servers: Vec<String>,
    /// What is asked of the signature.
    pub policy: Policy,
    /// The file's size in bytes.
    pub size: u64,
}

/// What a [`DownloadTarget`] holds.
pub struct DownloadTargetView {
    /// The repository.
    pub repo_name: Seq<char>,
    /// Its servers.
    pub servers: Seq<Seq<char>>,
    /// What is asked of the signature.
    pub policy: Policy,
    /// The file's size.
    pub size: u64,
}

impl View for DownloadTarget {
    type V = DownloadTargetView;

    open spec fn view(&self) -> DownloadTargetView {
        DownloadTargetView {
            repo_name: self.repo_name@,
            servers: text::texts(self.servers@),
            policy: self.policy,
            size: self.size,
        }
    }
}

/// The last configuration of a repository, among the first `n`.
pub open spec fn config_of(repos: Seq<RepositoryConfig>, name: Seq<char>, n: int) -> Option<
    RepositoryConfig,
>
    decreases n,
{
    if n <= 0 {
        None
    } else if repos[n - 1].name@ == name {
        Some(repos[n - 1])
    } else {
        config_of(repos, name, n - 1)
    }
}

/// The candidate that a step of a plan brings in.
pub open spec fn incoming(step: SolveStep) -> Option<usize> {
    match step {
        SolveStep::Install { candidate } => Some(candidate),
        SolveStep::Change { from: _, to } => Some(to),
        SolveStep::Remove { .. } => None,
    }
}

/// Where a candidate can be downloaded from, with the name of its file. One whose repository or
/// description cannot be resolved has no place: [`install_steps`] reports that.
pub open spec fn target_of(universe: Universe, repos: Seq<RepositoryConfig>, id: usize) -> Option<
    (Seq<char>, DownloadTargetView),
> {
    if id >= universe.solvables@.len() {
        None
    } else {
        match universe.solvables@[id as int].origin {
            Origin::Repository {
                index,
                desc: RepositoryDesc::FileName(file_name),
                compressed_size,
            } => if index >= universe.repository_names@.len() {
                None
            } else {
                let name = universe.repository_names@[index as int]@;
                match config_of(repos, name, repos.len() as int) {
                    Some(config) => Some(
                        (
                            file_name@,
                            DownloadTargetView {
                                repo_name: name,
                                servers: if config.cache_servers@.len() == 0 {
                                    text::texts(config.servers@)
                                } else {
                                    text::texts(config.cache_servers@)
                                },
                                policy: config.policy,
                                size: compressed_size,
                            },
                        ),
                    ),
                    None => None,
                }
            },
            _ => None,
        }
    }
}

/// Where the file of a name can be downloaded from, by the first steps: the last step decides.
pub open spec fn target_named(
    universe: Universe,
    built: Seq<SolveStep>,
    repos: Seq<RepositoryConfig>,
    file_name: Seq<char>,
) -> Option<DownloadTargetView>
    decreases built.len(),
{
    if built.len() == 0 {
        None
    } else {
        let found = match incoming(built.last()) {
            Some(id) => target_of(universe, repos, id),
            None => None,
        };
        match found {
            Some((name, target)) => if name == file_name {
                Some(target)
            } else {
                target_named(universe, built.drop_last(), repos, file_name)
            },
            None => target_named(universe, built.drop_last(), repos, file_name),
        }
    }
}

/// The view of what a table holds.
pub open spec fn target_in(targets: Table<DownloadTarget>, key: Seq<char>) -> Option<
    DownloadTargetView,
> {
    match targets.spec_get(key) {
        Some(target) => Some(target@),
        None => None,
    }
}

/// The last configuration of a repository.
fn config_named<'a>(repos: &'a Vec<RepositoryConfig>, name: &str) -> (r: Option<
    &'a RepositoryConfig,
>)
    ensures
        match r {
            Some(config) => config_of(repos@, name@, repos@.len() as int) == Some(*config),
            None => config_of(repos@, name@, repos@.len() as int) is None,
        },
{
    let mut n: usize = repos.len();
    while n > 0
        invariant
            n <= repos.len(),
            config_of(repos@, name@, repos@.len() as int) == config_of(repos@, name@, n as int),
        decreases n,
    {
        if text::same(repos[n - 1].name.as_str(), name) {
            return Some(&repos[n - 1]);
        }
        n -= 1;
    }
    None
}

/// Where a candidate can be downloaded from, with the name of its file.
fn download_target(universe: &Universe, repos: &Vec<RepositoryConfig>, id: usize) -> (r: Option<
    (String, DownloadTarget),
>)
    ensures
        match r {
            Some((name, target)) => target_of(*universe, repos@, id) == Some((name@, target@)),
            None => target_of(*universe, repos@, id) is None,
        },
{
    if id >= universe.solvables.len() {
        return None;
    }
    match &universe.solvables[id].origin {
        Origin::Installed => None,
        Origin::Repository { index, desc, compressed_size } => {
            let file_name = match desc {
                RepositoryDesc::FileName(name) => name,
                RepositoryDesc::Unreadable(_) => {
                    return None;
                },
            };
            if *index >= universe.repository_names.len() {
                return None;
            }
            let name = &universe.repository_names[*index];
            match config_named(repos, name.as_str()) {
                None => None,
                Some(config) => {
                    let servers = if config.cache_servers.len() == 0 {
                        text::copied(&config.servers)
                    } else {
                        text::copied(&config.cache_servers)
                    };
                    Some(
                        (
                            file_name.clone(),
                            DownloadTarget {
                                repo_name: name.clone(),
                                servers,
                                policy: config.policy,
                                size: *compressed_size,
                            },
                        ),
                    )
                },
            }
        },
    }
}

/// Where each incoming candidate's package file can be downloaded from, and under what policy.
///
/// Repositories are matched by name, not by position: only those that opened are counted, while
/// more may be configured. `CacheServer` is preferred over `Server`. A candidate that cannot be
/// resolved is skipped here.
pub fn download_targets(
    universe: &Universe,
    built: &Vec<SolveStep>,
    repos: &Vec<RepositoryConfig>,
) -> (r: Table<DownloadTarget>)
    ensures
        r.wf(),
        forall|name: Seq<char>| #[trigger]
            target_in(r, name) == target_named(*universe, built@, repos@, name),
{
    let mut targets: Table<DownloadTarget> = Table::new();
    let mut i: usize = 0;
    assert(built@.take(0) =~= Seq::<SolveStep>::empty());
    assert forall|name: Seq<char>| #[trigger]
        target_in(targets, name) == target_named(*universe, built@.take(0), repos@, name) by {
        assert(targets.spec_get(name) is None);
    }
    while i < built.len()
        invariant
            i <= built.len(),
            targets.wf(),
            forall|name: Seq<char>| #[trigger]
                target_in(targets, name) == target_named(
                    *universe,
                    built@.take(i as int),
                    repos@,
                    name,
                ),
        decreases built.len() - i,
    {
        let ghost so_far = built@.take(i + 1);
        let ghost before = targets;
        proof {
            assert(so_far.drop_last() =~= built@.take(i as int));
            assert(so_far.last() == built@[i as int]);
        }
        let candidate = match built[i] {
            SolveStep::Install { candidate } => Some(candidate),
            SolveStep::Change { from: _, to } => Some(to),
            SolveStep::Remove { .. } => None,
        };
        let mut found: Option<(String, DownloadTarget)> = None;
        if let Some(id) = candidate {
            found = download_target(universe, repos, id);
        }
        if let Some((file_name, target)) = found {
            let ghost key = file_name@;
            let ghost view = target@;
            targets.insert(file_name, target);
            assert forall|name: Seq<char>| #[trigger]
                target_in(targets, name) == target_named(*universe, so_far, repos@, name) by {
                assert(target_in(before, name) == target_named(
                    *universe,
                    built@.take(i as int),
                    repos@,
                    name,
                ));
            }
        } else {
            assert forall|name: Seq<char>| #[trigger]
                target_in(targets, name) == target_named(*universe, so_far, repos@, name) by {
                assert(target_in(before, name) == target_named(
                    *universe,
                    built@.take(i as int),
                    repos@,
                    name,
                ));
            }
        }
        i += 1;
    }
    assert(built@.take(i as int) =~= built@);
    targets
}

// ---------------------------------------------------------------------------------------------
// Verification

/// How packages are verified.
#[derive(Clone, Copy, Debug, Eq, PartialEq, Structural)]
pub enum Verification {
    /// Not at all: nothing asks for it.
    Disabled,
    /// With the keyring, under this policy where a package has none of its own.
    Enabled {
        /// The policy.
        policy: Policy,
    },
}

/// Whether anything asks for signatures to be checked: the fallback, or the policy of some
/// repository.
pub open spec fn asks(fallback: Policy, targets: Table<DownloadTarget>) -> bool {
    fallback.check || exists|name: Seq<char>|
        (#[trigger] targets.spec_get(name)) matches Some(target) && target.policy.check
}

/// Whether a keyring is needed: something asks for signatures to be checked.
pub fn needs_keyring(fallback: Policy, targets: &Table<DownloadTarget>) -> (r: bool)
    ensures
        r == asks(fallback, *targets),
{
    if fallback.check {
        return true;
    }
    let keys = targets.keys();
    let ghost all = text::texts(keys@);
    let mut i: usize = 0;
    while i < keys.len()
        invariant
            i <= keys.len(),
            all == text::texts(keys@),
            all == targets.spec_keys(),
            !fallback.check,
            forall|k: int|
                0 <= k < i ==> !((#[trigger] targets.spec_get(all[k])) matches Some(target)
                    && target.policy.check),
        decreases keys.len() - i,
    {
        let key = keys[i].as_str();
        assert(all[i as int] == key@);
        if let Some(target) = targets.get(key) {
            if target.policy.check {
                return true;
            }
        }
        i += 1;
    }
    proof {
        if asks(fallback, *targets) {
            let name = choose|name: Seq<char>|
                (#[trigger] targets.spec_get(name)) matches Some(target) && target.policy.check;
            let k = choose|k: int| 0 <= k < all.len() && all[k] == name;
            assert(targets.spec_get(all[k]) matches Some(target) && target.policy.check);
        }
    }
    false
}

/// The policy that each package has instead of the fallback.
pub open spec fn policy_of(targets: Table<DownloadTarget>, name: Seq<char>) -> Option<Policy> {
    match targets.spec_get(name) {
        Some(target) => Some(target.policy),
        None => None,
    }
}

/// The policies that packages have instead of the fallback.
fn policies(targets: &Table<DownloadTarget>) -> (r: Table<Policy>)
    ensures
        forall|name: Seq<char>| #[trigger] r.spec_get(name) == policy_of(*targets, name),
{
    let mut overrides: Table<Policy> = Table::new();
    let keys = targets.keys();
    let ghost all = text::texts(keys@);
    let mut i: usize = 0;
    while i < keys.len()
        invariant
            i <= keys.len(),
            all == text::texts(keys@),
            all == targets.spec_keys(),
            forall|name: Seq<char>|
                #[trigger] overrides.spec_get(name) == if all.take(i as int).contains(name) {
                    policy_of(*targets, name)
                } else {
                    None
                },
        decreases keys.len() - i,
    {
        let key = keys[i].as_str();
        let ghost before = overrides;
        assert(all[i as int] == key@);
        proof {
            lemma_one_more(all, i as int);
        }
        if let Some(target) = targets.get(key) {
            overrides.insert(key.to_owned(), target.policy);
        }
        proof {
            assert forall|name: Seq<char>|
                #[trigger] overrides.spec_get(name) == if all.take(i + 1).contains(name) {
                    policy_of(*targets, name)
                } else {
                    None
                } by {
                assert(before.spec_get(name) == if all.take(i as int).contains(name) {
                    policy_of(*targets, name)
                } else {
                    None
                });
            }
        }
        i += 1;
    }
    assert(all.take(i as int) =~= all);
    overrides
}

/// What one more text adds to a prefix.
proof fn lemma_one_more(all: Seq<Seq<char>>, i: int)
    requires
        0 <= i < all.len(),
    ensures
        forall|name: Seq<char>| #[trigger]
            all.take(i + 1).contains(name) <==> all.take(i).contains(name) || name == all[i],
{
    let more = all.take(i + 1);
    assert(more =~= all.take(i).push(all[i]));
    assert(more[i] == all[i]);
    assert forall|name: Seq<char>| #[trigger] more.contains(name) <==> all.take(i).contains(name)
        || name == all[i] by {
        if all.take(i).contains(name) {
            let k = choose|k: int| 0 <= k < all.take(i).len() && all.take(i)[k] == name;
            assert(more[k] == name);
        }
    }
}

/// Builds the verification policy from the fallback and each candidate's own repository policy,
/// with the policies that packages have instead of the fallback.
///
/// `keyring` is what opening the keyring said. It counts only where something asks for checking: a
/// system without a keyring still works where nothing does. The moment anything asks, an unusable
/// keyring is an error rather than a silent pass.
pub fn verification_from(
    gpg_dir: &str,
    fallback: Policy,
    targets: &Table<DownloadTarget>,
    keyring: Result<(), String>,
) -> (r: Result<(Verification, Table<Policy>), Error>)
    ensures
        match r {
            Ok((verification, overrides)) => {
                &&& asks(fallback, *targets) ==> keyring is Ok
                &&& verification == if asks(fallback, *targets) {
                    Verification::Enabled { policy: fallback }
                } else {
                    Verification::Disabled
                }
                &&& forall|name: Seq<char>|
                    #[trigger] overrides.spec_get(name) == policy_of(*targets, name)
            },
            Err(error) => {
                &&& asks(fallback, *targets) && keyring is Err
                &&& error matches Error::KeyringUnusable { path, source } && path@ == gpg_dir@
                    && source == keyring->Err_0
            },
        },
{
    let overrides = policies(targets);
    if !needs_keyring(fallback, targets) {
        return Ok((Verification::Disabled, overrides));
    }
    match keyring {
        Ok(()) => Ok((Verification::Enabled { policy: fallback }, overrides)),
        Err(source) => Err(Error::KeyringUnusable { path: gpg_dir.to_owned(), source }),
    }
}

// ---------------------------------------------------------------------------------------------
// Downloading without installing

/// One package that was located, with everything learned about it.
#[derive(Clone, Debug)]
pub struct DownloadOnlyOutcome {
    /// The package's cache file name.
    pub package: String,
    /// Whether it was already in a cache directory rather than freshly downloaded.
    pub was_cached: bool,
    /// The file's size in bytes.
    pub size: u64,
    /// Whether its signature was actually checked.
    pub verified: bool,
}

/// What a [`DownloadOnlyOutcome`] holds.
pub struct DownloadOnlyView {
    /// The package's cache file name.
    pub package: Seq<char>,
    /// Whether it was cached.
    pub was_cached: bool,
    /// The file's size.
    pub size: u64,
    /// Whether its signature was checked.
    pub verified: bool,
}

impl View for DownloadOnlyOutcome {
    type V = DownloadOnlyView;

    open spec fn view(&self) -> DownloadOnlyView {
        DownloadOnlyView {
            package: self.package@,
            was_cached: self.was_cached,
            size: self.size,
            verified: self.verified,
        }
    }
}

/// The views of a list of outcomes.
pub open spec fn download_views(list: Seq<DownloadOnlyOutcome>) -> Seq<DownloadOnlyView> {
    Seq::new(list.len(), |i: int| list[i]@)
}

/// The packages that the first steps install, in order.
pub open spec fn installs_of(steps: Seq<Step>) -> Seq<Seq<char>>
    decreases steps.len(),
{
    if steps.len() == 0 {
        Seq::empty()
    } else {
        let before = installs_of(steps.drop_last());
        match steps.last() {
            Step::Install { package, .. } => before.push(package@),
            Step::Remove { .. } => before,
        }
    }
}

/// The packages that a transaction installs, in order.
pub fn installs(steps: &Vec<Step>) -> (r: Vec<String>)
    ensures
        text::texts(r@) == installs_of(steps@),
{
    let mut out: Vec<String> = Vec::new();
    let mut i: usize = 0;
    assert(steps@.take(0) =~= Seq::<Step>::empty());
    assert(text::texts(out@) =~= Seq::<Seq<char>>::empty());
    while i < steps.len()
        invariant
            i <= steps.len(),
            text::texts(out@) == installs_of(steps@.take(i as int)),
        decreases steps.len() - i,
    {
        proof {
            let so_far = steps@.take(i + 1);
            assert(so_far.drop_last() =~= steps@.take(i as int));
            assert(so_far.last() == steps@[i as int]);
        }
        match &steps[i] {
            Step::Install { package, reason: _ } => {
                out.push(package.clone());
            },
            Step::Remove { .. } => {},
        }
        i += 1;
    }
    assert(steps@.take(i as int) =~= steps@);
    out
}

/// What locating a package and checking its signature gave.
#[derive(Debug)]
pub struct Checked {
    /// The file's size in bytes.
    pub size: u64,
    /// Whether its signature was actually checked.
    pub verified: bool,
}

/// What the first packages come to.
pub open spec fn outcomes_of(
    packages: Seq<Seq<char>>,
    cached: Seq<Seq<char>>,
    checks: Seq<Result<Checked, Error>>,
    n: int,
) -> Seq<DownloadOnlyView> {
    Seq::new(
        n as nat,
        |i: int|
            DownloadOnlyView {
                package: packages[i],
                was_cached: cached.contains(packages[i]),
                size: checks[i]->Ok_0.size,
                verified: checks[i]->Ok_0.verified,
            },
    )
}

/// What downloading every missing package of a transaction comes to, installing nothing.
///
/// `cached` holds the packages that were in a cache before anything was fetched: asking afterwards
/// would report every download as a hit. `fetched` is what fetching them together gave. `checks`
/// holds, for each package in order, what locating it and checking its signature gave. The first
/// failure ends it, and nothing after it is attempted: `checks` may end there.
pub fn download_only(
    steps: &Vec<Step>,
    cached: &TextSet,
    fetched: Result<(), Error>,
    checks: Vec<Result<Checked, Error>>,
) -> (r: (Vec<DownloadOnlyOutcome>, Result<(), Error>))
    requires
        fetched is Ok ==> checks@.len() == installs_of(steps@).len() || (0 < checks@.len()
            <= installs_of(steps@).len() && checks@.last() is Err),
    ensures
        fetched matches Err(error) ==> r.0@.len() == 0 && r.1 == Err::<(), Error>(error),
        r.0@.len() <= checks@.len(),
        download_views(r.0@) == outcomes_of(
            installs_of(steps@),
            cached@,
            checks@,
            r.0@.len() as int,
        ),
        forall|i: int| 0 <= i < r.0@.len() ==> (#[trigger] checks@[i]) is Ok,
        fetched is Ok ==> match r.1 {
            Ok(()) => r.0@.len() == installs_of(steps@).len(),
            Err(error) => r.0@.len() < checks@.len() && checks@[r.0@.len() as int] == Err::<
                Checked,
                Error,
            >(error),
        },
{
    let packages = installs(steps);
    let ghost names = installs_of(steps@);
    let ghost all = checks@;
    let mut out: Vec<DownloadOnlyOutcome> = Vec::new();
    match fetched {
        Ok(()) => {},
        Err(error) => {
            assert(download_views(out@) =~= outcomes_of(names, cached@, all, 0));
            return (out, Err(error));
        },
    }
    let mut i: usize = 0;
    assert(download_views(out@) =~= outcomes_of(names, cached@, all, 0));
    for check in it: checks
        invariant
            it.seq() == all,
            it.index() == i,
            text::texts(packages@) == names,
            names == installs_of(steps@),
            all == checks@,
            fetched is Ok,
            all.len() <= names.len(),
            out@.len() == i,
            download_views(out@) == outcomes_of(names, cached@, all, i as int),
            forall|k: int| 0 <= k < i ==> (#[trigger] all[k]) is Ok,
    {
        let ghost before = download_views(out@);
        proof {
            assert(check == all[i as int]);
        }
        match check {
            Ok(checked) => {
                let package = packages[i].as_str();
                assert(names[i as int] == package@);
                let outcome = DownloadOnlyOutcome {
                    package: package.to_owned(),
                    was_cached: cached.contains(package),
                    size: checked.size,
                    verified: checked.verified,
                };
                out.push(outcome);
                proof {
                    let after = outcomes_of(names, cached@, all, i + 1);
                    assert(all[i as int]->Ok_0 == checked);
                    assert(download_views(out@) =~= before.push(outcome@));
                    assert(after[i as int] == outcome@);
                    assert(after =~= before.push(outcome@));
                }
            },
            Err(error) => {
                return (out, Err(error));
            },
        }
        assert(i < packages.len());
        i += 1;
    }
    (out, Ok(()))
}

// ---------------------------------------------------------------------------------------------
// Laws

/// An upgrade keeps the reason a package had, unless the user asked for it by name.
pub proof fn an_upgrade_keeps_its_reason(
    candidate: usize,
    targets: Seq<usize>,
    as_deps: bool,
    previous: InstallReason,
)
    requires
        !targets.contains(candidate),
    ensures
        reason_of(candidate, targets, as_deps, Some(previous)) == previous,
{
}

/// A fresh dependency is recorded as one, and so is what the user wants as one.
pub proof fn a_dependency_is_recorded_as_one(candidate: usize, targets: Seq<usize>, as_deps: bool)
    requires
        !targets.contains(candidate) || as_deps,
    ensures
        reason_of(candidate, targets, as_deps, None) == InstallReason::Depend,
{
}

/// A plan that can be turned into a transaction has a step for each of its own.
pub proof fn every_step_is_turned(
    universe: Universe,
    built: Seq<SolveStep>,
    targets: Seq<usize>,
    as_deps: bool,
    i: int,
)
    requires
        steps_of(universe, built, targets, as_deps) is Ok,
        0 <= i < built.len(),
    ensures
        steps_of(universe, built, targets, as_deps)->Ok_0.len() == built.len(),
        step_of(universe, built[i], targets, as_deps) == Ok::<StepView, Flaw>(
            steps_of(universe, built, targets, as_deps)->Ok_0[i],
        ),
    decreases built.len(),
{
    let fewer = built.drop_last();
    if i < fewer.len() {
        every_step_is_turned(universe, fewer, targets, as_deps, i);
    } else if fewer.len() > 0 {
        every_step_is_turned(universe, fewer, targets, as_deps, 0);
    }
}

} // verus!
