//! What a solved plan becomes.

use vstd::prelude::*;

use crate::laws::lists::picks;
use crate::package::{is_full_version, is_name, EntryNameView, InstallReason};
use crate::plan::{
    asks, config_of, installs_of, outcomes_of, policy_of, steps_of, target_named, Checked,
    DownloadTarget, DownloadTargetView, Flaw, Origin, Policy, RepositoryConfig, RepositoryDesc,
    SolveStep, Step, StepView, Universe,
};
use crate::table::Table;
use crate::text;
use crate::error::Error;

verus! {

/// Whether a candidate is one that a repository names a file for.
pub open spec fn has_file(universe: Universe, id: usize, name: Seq<char>) -> bool {
    &&& id < universe.solvables@.len()
    &&& universe.solvables@[id as int].origin matches Origin::Repository {
        index: _,
        desc: RepositoryDesc::FileName(file),
        compressed_size: _,
    } && file@ == name
}

/// Whether the user asked for a candidate by name, and not as a dependency.
pub open spec fn is_asked_for(targets: Seq<usize>, as_deps: bool, id: usize) -> bool {
    !as_deps && exists|k: int| 0 <= k < targets.len() && targets[k] == id
}

/// Whether a step of a transaction is what a step of a plan asks for.
///
/// A removal names the entry of the installed package. An installation names the repository's file,
/// and is explicit where it was asked for and a dependency otherwise. A change names the file of
/// what comes, and keeps the reason of what goes, unless it was asked for.
pub open spec fn carries_out(
    universe: Universe,
    targets: Seq<usize>,
    as_deps: bool,
    asked: SolveStep,
    step: StepView,
) -> bool {
    match asked {
        SolveStep::Remove { package } => {
            &&& package < universe.solvables@.len()
            &&& step == (StepView::Remove {
                entry: EntryNameView {
                    name: universe.solvables@[package as int].name@,
                    version: universe.solvables@[package as int].version@,
                },
                no_save: false,
            })
        },
        SolveStep::Install { candidate } => step matches StepView::Install { package, reason } && {
            &&& has_file(universe, candidate, package)
            &&& reason == if is_asked_for(targets, as_deps, candidate) {
                InstallReason::Explicit
            } else {
                InstallReason::Depend
            }
        },
        SolveStep::Change { from, to } => step matches StepView::Install { package, reason } && {
            &&& has_file(universe, to, package)
            &&& reason == if is_asked_for(targets, as_deps, to) {
                InstallReason::Explicit
            } else if from < universe.solvables@.len()
                && universe.solvables@[from as int].install_reason is Some {
                universe.solvables@[from as int].install_reason->0
            } else {
                InstallReason::Depend
            }
        },
    }
}

/// Whether a step of a plan can be carried out: what it removes has a name and a version of their
/// kinds, and what it brings in has a file.
pub open spec fn can_be_carried_out(universe: Universe, asked: SolveStep) -> bool {
    match asked {
        SolveStep::Remove { package } => package < universe.solvables@.len() && is_name(
            universe.solvables@[package as int].name@,
        ) && is_full_version(universe.solvables@[package as int].version@),
        SolveStep::Install { candidate } => exists|name: Seq<char>|
            has_file(universe, candidate, name),
        SolveStep::Change { from: _, to } => exists|name: Seq<char>| has_file(universe, to, name),
    }
}

/// Whether a flaw is that of a step which cannot be carried out.
pub open spec fn is_flaw_of(universe: Universe, asked: SolveStep, flaw: Flaw) -> bool {
    let id = match asked {
        SolveStep::Remove { package } => package,
        SolveStep::Install { candidate } => candidate,
        SolveStep::Change { from: _, to } => to,
    };
    if id >= universe.solvables@.len() {
        flaw == (Flaw::Inconsistent { id })
    } else if asked is Remove {
        flaw == (Flaw::NoEntry { name: universe.solvables@[id as int].name@ })
    } else {
        match universe.solvables@[id as int].origin {
            Origin::Installed => flaw == (Flaw::NoCandidate {
                name: universe.solvables@[id as int].name@,
            }),
            Origin::Repository {
                index: _,
                desc: RepositoryDesc::Unreadable(source),
                compressed_size: _,
            } => flaw == (Flaw::Unreadable {
                name: universe.solvables@[id as int].name@,
                source: source@,
            }),
            _ => false,
        }
    }
}

proof fn lemma_step(universe: Universe, asked: SolveStep, targets: Seq<usize>, as_deps: bool)
    ensures
        match crate::plan::step_of(universe, asked, targets, as_deps) {
            Ok(step) => can_be_carried_out(universe, asked) && carries_out(
                universe,
                targets,
                as_deps,
                asked,
                step,
            ),
            Err(flaw) => !can_be_carried_out(universe, asked) && is_flaw_of(universe, asked, flaw),
        },
{
    let id = match asked {
        SolveStep::Remove { package } => package,
        SolveStep::Install { candidate } => candidate,
        SolveStep::Change { from: _, to } => to,
    };
    if id < universe.solvables@.len() {
        if let Origin::Repository {
            index: _,
            desc: RepositoryDesc::FileName(file),
            compressed_size: _,
        } = universe.solvables@[id as int].origin {
            assert(has_file(universe, id, file@));
        }
    }
    if targets.contains(id) {
        let k = choose|k: int| 0 <= k < targets.len() && targets[k] == id;
        assert(targets[k] == id);
    }
}

/// A plan becomes a transaction of as many steps, each of which carries out the step of the plan at
/// its place. It does where every step can be carried out, and otherwise the flaw of the first
/// that cannot is reported.
pub proof fn every_step_carries_out_its_own(
    universe: Universe,
    built: Seq<SolveStep>,
    targets: Seq<usize>,
    as_deps: bool,
)
    ensures
        match steps_of(universe, built, targets, as_deps) {
            Ok(steps) => {
                &&& steps.len() == built.len()
                &&& forall|i: int|
                    0 <= i < built.len() ==> can_be_carried_out(universe, #[trigger] built[i])
                &&& forall|i: int|
                    0 <= i < built.len() ==> carries_out(
                        universe,
                        targets,
                        as_deps,
                        #[trigger] built[i],
                        steps[i],
                    )
            },
            Err(flaw) => exists|i: int|
                0 <= i < built.len() && !can_be_carried_out(universe, #[trigger] built[i])
                    && is_flaw_of(universe, built[i], flaw) && forall|k: int|
                    0 <= k < i ==> can_be_carried_out(universe, #[trigger] built[k]),
        },
    decreases built.len(),
{
    if built.len() > 0 {
        let fewer = built.drop_last();
        let last = built.len() - 1;
        every_step_carries_out_its_own(universe, fewer, targets, as_deps);
        lemma_step(universe, built.last(), targets, as_deps);
        match steps_of(universe, fewer, targets, as_deps) {
            Err(flaw) => {
                let i = choose|i: int|
                    0 <= i < fewer.len() && !can_be_carried_out(universe, #[trigger] fewer[i])
                        && is_flaw_of(universe, fewer[i], flaw) && forall|k: int|
                        0 <= k < i ==> can_be_carried_out(universe, #[trigger] fewer[k]);
                assert(built[i] == fewer[i]);
                assert forall|k: int| 0 <= k < i implies can_be_carried_out(
                    universe,
                    #[trigger] built[k],
                ) by {
                    assert(built[k] == fewer[k]);
                }
            },
            Ok(before) => {
                assert forall|k: int| 0 <= k < last implies can_be_carried_out(
                    universe,
                    #[trigger] built[k],
                ) by {
                    assert(built[k] == fewer[k]);
                }
                if let Ok(steps) = steps_of(universe, built, targets, as_deps) {
                    assert forall|i: int| 0 <= i < built.len() implies carries_out(
                        universe,
                        targets,
                        as_deps,
                        #[trigger] built[i],
                        steps[i],
                    ) by {
                        if i < last {
                            assert(built[i] == fewer[i]);
                            assert(steps[i] == before[i]);
                        }
                    }
                } else {
                    assert(!can_be_carried_out(universe, built[last]));
                }
            },
        }
    }
}

/// An upgrade that nobody asked for keeps the reason of the package it replaces.
pub proof fn an_upgrade_keeps_the_reason_of_what_it_replaces(
    universe: Universe,
    built: Seq<SolveStep>,
    targets: Seq<usize>,
    as_deps: bool,
    i: int,
    from: usize,
    to: usize,
    reason: InstallReason,
)
    requires
        steps_of(universe, built, targets, as_deps) is Ok,
        0 <= i < built.len(),
        built[i] == (SolveStep::Change { from, to }),
        !targets.contains(to) || as_deps,
        from < universe.solvables@.len(),
        universe.solvables@[from as int].install_reason == Some(reason),
    ensures
        steps_of(universe, built, targets, as_deps)->Ok_0[i] matches StepView::Install {
            package: _,
            reason: recorded,
        } && recorded == reason,
{
    every_step_carries_out_its_own(universe, built, targets, as_deps);
    let steps = steps_of(universe, built, targets, as_deps)->Ok_0;
    assert(carries_out(universe, targets, as_deps, built[i], steps[i]));
}

/// Whether repository configuration `c` is the last of a name.
pub open spec fn last_named(repos: Seq<RepositoryConfig>, name: Seq<char>, c: int) -> bool {
    &&& 0 <= c < repos.len()
    &&& repos[c].name@ == name
    &&& forall|k: int| c < k < repos.len() ==> (#[trigger] repos[k]).name@ != name
}

/// Whether a step brings in a candidate whose file of this name is downloaded as `target` says:
/// from the cache servers of its repository where it has any and from its servers otherwise, under
/// the policy of the last configuration of that repository, and of the size that the repository
/// says.
pub open spec fn brings_in(
    universe: Universe,
    repos: Seq<RepositoryConfig>,
    step: SolveStep,
    name: Seq<char>,
    target: DownloadTargetView,
) -> bool {
    let id = match step {
        SolveStep::Install { candidate } => candidate,
        SolveStep::Change { from: _, to } => to,
        SolveStep::Remove { package } => package,
    };
    &&& step !is Remove
    &&& has_file(universe, id, name)
    &&& universe.solvables@[id as int].origin matches Origin::Repository {
        index,
        desc: _,
        compressed_size,
    } && {
        &&& index < universe.repository_names@.len()
        &&& target.repo_name == universe.repository_names@[index as int]@
        &&& target.size == compressed_size
        &&& exists|c: int| #[trigger]
            last_named(repos, target.repo_name, c) && target.policy == repos[c].policy
                && target.servers == if repos[c].cache_servers@.len() > 0 {
                text::texts(repos[c].cache_servers@)
            } else {
                text::texts(repos[c].servers@)
            }
    }
}

proof fn lemma_config(repos: Seq<RepositoryConfig>, name: Seq<char>, n: int)
    requires
        0 <= n <= repos.len(),
    ensures
        match config_of(repos, name, n) {
            Some(config) => exists|c: int|
                0 <= c < n && (#[trigger] repos[c]).name@ == name && repos[c] == config && forall|
                    k: int,
                |
                    c < k < n ==> (#[trigger] repos[k]).name@ != name,
            None => forall|k: int| 0 <= k < n ==> (#[trigger] repos[k]).name@ != name,
        },
    decreases n,
{
    if n > 0 && repos[n - 1].name@ != name {
        lemma_config(repos, name, n - 1);
    }
}

proof fn lemma_brought(
    universe: Universe,
    repos: Seq<RepositoryConfig>,
    step: SolveStep,
    name: Seq<char>,
    target: DownloadTargetView,
)
    ensures
        brings_in(universe, repos, step, name, target) <==> (crate::plan::incoming(step) matches Some(
            id,
        ) && crate::plan::target_of(universe, repos, id) == Some((name, target))),
{
    let id = match step {
        SolveStep::Install { candidate } => candidate,
        SolveStep::Change { from: _, to } => to,
        SolveStep::Remove { package } => package,
    };
    if id < universe.solvables@.len() {
        if let Origin::Repository { index, desc: _, compressed_size: _ } =
            universe.solvables@[id as int].origin {
            if index < universe.repository_names@.len() {
                let repo = universe.repository_names@[index as int]@;
                lemma_config(repos, repo, repos.len() as int);
                if let Some(config) = config_of(repos, repo, repos.len() as int) {
                    let c = choose|c: int|
                        0 <= c < repos.len() && (#[trigger] repos[c]).name@ == repo && repos[c]
                            == config && forall|k: int|
                            c < k < repos.len() ==> (#[trigger] repos[k]).name@ != repo;
                    assert(last_named(repos, repo, c));
                    assert forall|d: int| #[trigger] last_named(repos, repo, d) implies d == c by {
                        if d < c {
                            assert(repos[c].name@ != repo);
                        }
                        if c < d {
                            assert(repos[d].name@ != repo);
                        }
                    }
                }
            }
        }
    }
}

/// A file is downloaded as the last step that brings it in says, and not at all where none does.
pub proof fn a_download_is_that_of_the_last_step(
    universe: Universe,
    built: Seq<SolveStep>,
    repos: Seq<RepositoryConfig>,
    name: Seq<char>,
    target: DownloadTargetView,
)
    ensures
        target_named(universe, built, repos, name) == Some(target) <==> exists|i: int|
            0 <= i < built.len() && brings_in(
                universe,
                repos,
                #[trigger] built[i],
                name,
                target,
            ) && forall|k: int, other: DownloadTargetView|
                i < k < built.len() ==> !brings_in(
                    universe,
                    repos,
                    #[trigger] built[k],
                    name,
                    #[trigger] as_given(other),
                ),
    decreases built.len(),
{
    if built.len() > 0 {
        let fewer = built.drop_last();
        let last = built.len() - 1;
        a_download_is_that_of_the_last_step(universe, fewer, repos, name, target);
        let found = match crate::plan::incoming(built.last()) {
            Some(id) => crate::plan::target_of(universe, repos, id),
            None => None,
        };
        let here = found is Some && (found->0).0 == name;
        if here {
            lemma_brought(universe, repos, built[last], name, (found->0).1);
            assert(brings_in(universe, repos, built[last], name, as_given((found->0).1)));
        }
        lemma_brought(universe, repos, built[last], name, target);
        assert forall|other: DownloadTargetView| !here implies !brings_in(
            universe,
            repos,
            built[last],
            name,
            #[trigger] as_given(other),
        ) by {
            lemma_brought(universe, repos, built[last], name, other);
        }
        if target_named(universe, built, repos, name) == Some(target) {
            if here {
                assert(brings_in(universe, repos, built[last], name, target));
            } else {
                let i = choose|i: int|
                    0 <= i < fewer.len() && brings_in(
                        universe,
                        repos,
                        #[trigger] fewer[i],
                        name,
                        target,
                    ) && forall|k: int, other: DownloadTargetView|
                        i < k < fewer.len() ==> !brings_in(
                            universe,
                            repos,
                            #[trigger] fewer[k],
                            name,
                            #[trigger] as_given(other),
                        );
                assert(built[i] == fewer[i]);
                assert forall|k: int, other: DownloadTargetView|
                    i < k < built.len() implies !brings_in(
                    universe,
                    repos,
                    #[trigger] built[k],
                    name,
                    #[trigger] as_given(other),
                ) by {
                    if k < last {
                        assert(fewer[k] == built[k]);
                    }
                }
            }
        }
        if exists|i: int|
            0 <= i < built.len() && brings_in(universe, repos, #[trigger] built[i], name, target)
                && forall|k: int, other: DownloadTargetView|
                i < k < built.len() ==> !brings_in(
                    universe,
                    repos,
                    #[trigger] built[k],
                    name,
                    #[trigger] as_given(other),
                ) {
            let i = choose|i: int|
                0 <= i < built.len() && brings_in(
                    universe,
                    repos,
                    #[trigger] built[i],
                    name,
                    target,
                ) && forall|k: int, other: DownloadTargetView|
                    i < k < built.len() ==> !brings_in(
                        universe,
                        repos,
                        #[trigger] built[k],
                        name,
                        #[trigger] as_given(other),
                    );
            if i < last {
                if here {
                    assert(!brings_in(
                        universe,
                        repos,
                        built[last],
                        name,
                        as_given((found->0).1),
                    ));
                }
                assert(fewer[i] == built[i]);
                assert forall|k: int, other: DownloadTargetView|
                    i < k < fewer.len() implies !brings_in(
                    universe,
                    repos,
                    #[trigger] fewer[k],
                    name,
                    #[trigger] as_given(other),
                ) by {
                    assert(fewer[k] == built[k]);
                }
            }
        }
    }
}

/// A download, as it is given.
pub open spec fn as_given(target: DownloadTargetView) -> DownloadTargetView {
    target
}

/// Signatures are checked where the fallback asks for it, or the policy of any one package does,
/// and a package has its own policy.
pub proof fn any_policy_can_ask(fallback: Policy, targets: Table<DownloadTarget>, name: Seq<char>)
    ensures
        fallback.check ==> asks(fallback, targets),
        targets.spec_get(name) matches Some(target) && target.policy.check ==> asks(
            fallback,
            targets,
        ),
        asks(fallback, targets) && !fallback.check ==> exists|other: Seq<char>|
            (#[trigger] targets.spec_get(other)) matches Some(target) && target.policy.check,
        policy_of(targets, name) is Some <==> targets.spec_get(name) is Some,
        targets.spec_get(name) matches Some(target) ==> policy_of(targets, name) == Some(
            target.policy,
        ),
{
}

/// The packages of a transaction are those that its steps install, in order.
pub proof fn the_packages_are_those_of_the_steps(steps: Seq<Step>)
    ensures
        installs_of(steps) == picks(
            steps.len() as int,
            |i: int| steps[i] is Install,
            |i: int| steps[i]->package@,
        ),
    decreases steps.len(),
{
    if steps.len() > 0 {
        let fewer = steps.drop_last();
        the_packages_are_those_of_the_steps(fewer);
        crate::laws::lists::lemma_picks_agree(
            steps.len() - 1,
            |i: int| fewer[i] is Install,
            |i: int| steps[i] is Install,
            |i: int| fewer[i]->package@,
            |i: int| steps[i]->package@,
        );
    }
}

/// What is said of a downloaded package is what was found of that package: its name, whether it was
/// in a cache before, its size, and whether its signature was checked.
pub proof fn a_download_is_described_by_its_own_check(
    packages: Seq<Seq<char>>,
    cached: Seq<Seq<char>>,
    checks: Seq<Result<Checked, Error>>,
    n: int,
    i: int,
)
    requires
        0 <= i < n,
    ensures
        outcomes_of(packages, cached, checks, n).len() == n,
        outcomes_of(packages, cached, checks, n)[i].package == packages[i],
        outcomes_of(packages, cached, checks, n)[i].was_cached <==> cached.contains(packages[i]),
        checks[i] matches Ok(checked) ==> outcomes_of(packages, cached, checks, n)[i].size
            == checked.size && outcomes_of(packages, cached, checks, n)[i].verified
            == checked.verified,
{
}

} // verus!
