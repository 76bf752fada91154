//! Turning a plan into a transaction.

use piko_txn::package::{EntryName, InstallReason};
use piko_txn::plan::{
    download_only, download_targets, install_steps, installs, needs_keyring, verification_from,
    Checked, DownloadTarget, Origin, Policy, RepositoryConfig, RepositoryDesc, Solvable, SolveStep, Step,
    Universe, Verification,
};
use piko_txn::table::{Table, TextSet};
use piko_txn::Error;

fn installed(name: &str, reason: InstallReason) -> Solvable {
    Solvable {
        name: name.to_owned(),
        version: "1.0-1".to_owned(),
        origin: Origin::Installed,
        install_reason: Some(reason),
    }
}

fn candidate(name: &str, index: usize) -> Solvable {
    Solvable {
        name: name.to_owned(),
        version: "2.0-1".to_owned(),
        origin: Origin::Repository {
            index,
            desc: RepositoryDesc::FileName(format!("{name}-2.0-1-any.pkg.tar.zst")),
            compressed_size: 7,
        },
        install_reason: None,
    }
}

fn universe() -> Universe {
    let mut broken = candidate("broken", 0);
    if let Origin::Repository { desc, .. } = &mut broken.origin {
        *desc = RepositoryDesc::Unreadable("truncated".to_owned());
    }
    Universe {
        solvables: vec![
            installed("old", InstallReason::Depend),
            candidate("old", 0),
            candidate("new", 1),
            broken,
            candidate("lost", 9),
            Solvable { name: "not a name".to_owned(), ..installed("x", InstallReason::Explicit) },
        ],
        repository_names: vec!["core".to_owned(), "extra".to_owned()],
    }
}

fn reasons(steps: &[Step]) -> Vec<InstallReason> {
    steps
        .iter()
        .filter_map(|step| match step {
            Step::Install { reason, .. } => Some(*reason),
            Step::Remove { .. } => None,
        })
        .collect()
}

#[test]
fn a_plan_becomes_steps_in_order() {
    let built = vec![
        SolveStep::Remove { package: 0 },
        SolveStep::Install { candidate: 2 },
        SolveStep::Change { from: 0, to: 1 },
    ];
    let steps = install_steps(&universe(), &built, &vec![2], false).unwrap();
    assert_eq!(steps.len(), 3);
    assert!(matches!(&steps[0], Step::Remove { entry, no_save: false }
        if *entry == EntryName::parse("old-1.0-1").unwrap()));
    assert!(matches!(&steps[1], Step::Install { package, .. }
        if package == "new-2.0-1-any.pkg.tar.zst"));
    assert_eq!(reasons(&steps), [InstallReason::Explicit, InstallReason::Depend]);
    assert_eq!(installs(&steps), ["new-2.0-1-any.pkg.tar.zst", "old-2.0-1-any.pkg.tar.zst"]);
}

#[test]
fn asking_for_a_dependency_downgrades_the_reason() {
    let built = vec![SolveStep::Install { candidate: 2 }];
    let steps = install_steps(&universe(), &built, &vec![2], true).unwrap();
    assert_eq!(reasons(&steps), [InstallReason::Depend]);
    let steps = install_steps(&universe(), &built, &Vec::new(), false).unwrap();
    assert_eq!(reasons(&steps), [InstallReason::Depend]);
    let upgrade = vec![SolveStep::Change { from: 0, to: 1 }];
    let steps = install_steps(&universe(), &upgrade, &vec![1], false).unwrap();
    assert_eq!(reasons(&steps), [InstallReason::Explicit]);
}

#[test]
fn a_plan_that_disagrees_with_the_universe_is_refused() {
    let refused = |step: SolveStep| {
        install_steps(&universe(), &vec![step], &Vec::new(), false).unwrap_err().message()
    };
    assert_eq!(
        refused(SolveStep::Install { candidate: 99 }),
        "the plan names a package the universe does not know (id 99) — this is a bug"
    );
    assert_eq!(
        refused(SolveStep::Install { candidate: 0 }),
        "old has no repository candidate to install from — this is a bug"
    );
    assert_eq!(
        refused(SolveStep::Install { candidate: 3 }),
        "broken could not be read from its repository"
    );
    assert_eq!(
        refused(SolveStep::Remove { package: 5 }),
        "not a name has no usable entry name: it is not a package name and a full version"
    );
}

fn repo(name: &str, servers: &[&str], cache_servers: &[&str], check: bool) -> RepositoryConfig {
    let owned = |list: &[&str]| list.iter().map(|item| (*item).to_owned()).collect();
    RepositoryConfig {
        name: name.to_owned(),
        servers: owned(servers),
        cache_servers: owned(cache_servers),
        policy: Policy { check, optional: false },
    }
}

#[test]
fn a_cache_server_is_preferred() {
    let built = vec![
        SolveStep::Change { from: 0, to: 1 },
        SolveStep::Install { candidate: 2 },
        SolveStep::Install { candidate: 3 },
        SolveStep::Install { candidate: 4 },
        SolveStep::Remove { package: 0 },
    ];
    let repos = vec![
        repo("unopened", &["https://u"], &[], true),
        repo("extra", &["https://e"], &["https://cache"], false),
        repo("core", &["https://c"], &[], true),
    ];
    let targets = download_targets(&universe(), &built, &repos);
    assert_eq!(targets.keys(), &["new-2.0-1-any.pkg.tar.zst", "old-2.0-1-any.pkg.tar.zst"]);
    let new = targets.get("new-2.0-1-any.pkg.tar.zst").unwrap();
    assert_eq!(new.servers, ["https://cache"]);
    assert_eq!(new.repo_name, "extra");
    assert_eq!(new.size, 7);
    let old = targets.get("old-2.0-1-any.pkg.tar.zst").unwrap();
    assert_eq!(old.servers, ["https://c"]);
    assert!(old.policy.check);
}

fn one_target(check: bool) -> Table<DownloadTarget> {
    let mut targets = Table::new();
    targets.insert(
        "p".to_owned(),
        DownloadTarget {
            repo_name: "core".to_owned(),
            servers: Vec::new(),
            policy: Policy { check, optional: false },
            size: 1,
        },
    );
    targets
}

#[test]
fn a_keyring_is_needed_only_where_something_asks() {
    let never = Policy { check: false, optional: false };
    let always = Policy { check: true, optional: false };
    let broken = || Err("no keyring".to_owned());

    assert!(!needs_keyring(never, &one_target(false)));
    assert!(needs_keyring(never, &one_target(true)));
    let (verification, overrides) =
        verification_from("/gpg", never, &one_target(false), broken()).unwrap();
    assert_eq!(verification, Verification::Disabled);
    assert_eq!(overrides.get("p"), Some(&never));

    let error = verification_from("/gpg", never, &one_target(true), broken()).unwrap_err();
    assert_eq!(error.message(), "cannot open the GnuPG keyring at /gpg");
    assert!(verification_from("/gpg", always, &one_target(false), broken()).is_err());

    let (verification, overrides) =
        verification_from("/gpg", never, &one_target(true), Ok(())).unwrap();
    assert_eq!(verification, Verification::Enabled { policy: never });
    assert_eq!(overrides.get("p"), Some(&always));
    assert!(overrides.get("q").is_none());
}

#[test]
fn downloading_stops_at_the_first_failure() {
    let built = vec![
        SolveStep::Install { candidate: 1 },
        SolveStep::Remove { package: 0 },
        SolveStep::Install { candidate: 2 },
    ];
    let steps = install_steps(&universe(), &built, &Vec::new(), false).unwrap();
    let mut cached = TextSet::new();
    cached.insert("new-2.0-1-any.pkg.tar.zst".to_owned());
    let ok = |size: u64| Ok(Checked { size, verified: true });

    let (outcomes, result) = download_only(&steps, &cached, Ok(()), vec![ok(5), ok(6)]);
    result.unwrap();
    assert_eq!(outcomes.len(), 2);
    assert_eq!(outcomes[0].package, "old-2.0-1-any.pkg.tar.zst");
    assert!(!outcomes[0].was_cached);
    assert!(outcomes[1].was_cached);
    assert_eq!(outcomes[1].size, 6);

    let failed = Err(Error::Download { message: "404".to_owned() });
    let (outcomes, result) = download_only(&steps, &cached, Ok(()), vec![failed]);
    assert!(outcomes.is_empty());
    assert_eq!(result.unwrap_err().message(), "404");

    let unreachable = Err(Error::Download { message: "no server".to_owned() });
    let (outcomes, result) = download_only(&steps, &cached, unreachable, Vec::new());
    assert!(outcomes.is_empty());
    assert_eq!(result.unwrap_err().message(), "no server");
}
