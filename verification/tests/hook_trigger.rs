//! Which hooks a transaction sets off.

use piko_txn::hook::parse::parse;
use piko_txn::hook::trigger::{Added, Removed};
use piko_txn::hook::{Hook, Summary};
use piko_txn::pattern::{Answer, Answers};
use piko_txn::table::TextSet;

/// Whether `*` and `?` make a pattern fit a text.
fn fits(pattern: &[u8], text: &[u8]) -> bool {
    match (pattern.first(), text.first()) {
        (None, None) => true,
        (Some(b'*'), _) => {
            fits(&pattern[1..], text) || (!text.is_empty() && fits(pattern, &text[1..]))
        },
        (Some(b'?'), Some(_)) => fits(&pattern[1..], &text[1..]),
        (Some(a), Some(b)) => a == b && fits(&pattern[1..], &text[1..]),
        _ => false,
    }
}

/// Whether the last pattern of a list that fits a text is not inverted.
fn matched(patterns: &[String], text: &str) -> bool {
    let mut found = false;
    for pattern in patterns {
        let (bare, wanted) = match pattern.strip_prefix('!') {
            Some(bare) => (bare, false),
            None => (pattern.as_str(), true),
        };
        if fits(bare.as_bytes(), text.as_bytes()) {
            found = wanted;
        }
    }
    found
}

fn answers(hooks: &[&Hook], summary: &Summary) -> Answers {
    let mut texts: Vec<&String> = Vec::new();
    for added in &summary.added {
        texts.push(&added.name);
        texts.extend(added.files.iter().chain(&added.old_files));
    }
    for removed in &summary.removed {
        texts.push(&removed.name);
        texts.extend(&removed.files);
    }
    let mut lists = vec![summary.no_extract.clone()];
    for hook in hooks {
        lists.extend(hook.triggers.iter().map(|trigger| trigger.targets.clone()));
    }
    let lists = lists
        .into_iter()
        .map(|patterns| {
            let mut set = TextSet::new();
            for text in texts.iter().filter(|text| matched(&patterns, text)) {
                set.insert((*text).clone());
            }
            Answer { patterns, matched: set }
        })
        .collect();
    Answers { lists }
}

fn triggered(hook: &Hook, summary: &Summary) -> Option<Vec<String>> {
    piko_txn::hook::trigger::triggered(hook, &answers(&[hook], summary), summary)
}

fn hook(text: &str) -> Hook {
    parse("test.hook", text).unwrap()
}

fn added(name: &str, files: &[&str]) -> Added {
    Added {
        name: name.to_owned(),
        files: files.iter().map(|f| (*f).to_owned()).collect(),
        old_files: Vec::new(),
        replaces_installed: false,
    }
}

fn upgraded(name: &str, files: &[&str], old: &[&str]) -> Added {
    Added {
        name: name.to_owned(),
        files: files.iter().map(|f| (*f).to_owned()).collect(),
        old_files: old.iter().map(|f| (*f).to_owned()).collect(),
        replaces_installed: true,
    }
}

fn removed(name: &str, files: &[&str]) -> Removed {
    Removed { name: name.to_owned(), files: files.iter().map(|f| (*f).to_owned()).collect() }
}

const PACKAGE_INSTALL: &str = "\
[Trigger]
Operation = Install
Type = Package
Target = glibc

[Action]
When = PostTransaction
Exec = /bin/true
";

#[test]
fn a_package_trigger_fires_on_a_matching_install() {
    let summary = Summary { added: vec![added("glibc", &[])], ..Summary::default() };
    assert_eq!(triggered(&hook(PACKAGE_INSTALL), &summary), Some(Vec::new()));
}

#[test]
fn a_package_trigger_does_not_fire_on_another_package() {
    let summary = Summary { added: vec![added("bash", &[])], ..Summary::default() };
    assert_eq!(triggered(&hook(PACKAGE_INSTALL), &summary), None);
}

#[test]
fn an_install_trigger_does_not_fire_on_an_upgrade() {
    let summary = Summary { added: vec![upgraded("glibc", &[], &[])], ..Summary::default() };
    assert_eq!(triggered(&hook(PACKAGE_INSTALL), &summary), None);
}

#[test]
fn an_upgrade_trigger_fires_whenever_something_was_replaced() {
    let text = PACKAGE_INSTALL.replace("Operation = Install", "Operation = Upgrade");
    let summary = Summary { added: vec![upgraded("glibc", &[], &[])], ..Summary::default() };
    assert!(triggered(&hook(&text), &summary).is_some());
}

#[test]
fn a_package_being_reinstalled_does_not_count_as_removed() {
    let text = PACKAGE_INSTALL.replace("Operation = Install", "Operation = Remove");
    let summary = Summary {
        added: vec![upgraded("glibc", &[], &[])],
        removed: vec![removed("glibc", &[])],
        ..Summary::default()
    };
    assert_eq!(triggered(&hook(&text), &summary), None);
}

#[test]
fn a_remove_trigger_fires_on_a_real_removal() {
    let text = PACKAGE_INSTALL.replace("Operation = Install", "Operation = Remove");
    let summary = Summary { removed: vec![removed("glibc", &[])], ..Summary::default() };
    assert!(triggered(&hook(&text), &summary).is_some());
}

const PATH_HOOK: &str = "\
[Trigger]
Operation = Install
Operation = Upgrade
Type = Path
Target = usr/lib/modules/*

[Action]
When = PostTransaction
Exec = /bin/true
NeedsTargets
";

#[test]
fn a_path_trigger_reports_the_paths_it_matched() {
    let summary = Summary {
        added: vec![added("linux", &["usr/lib/modules/6.1/x.ko", "usr/bin/other"])],
        ..Summary::default()
    };
    assert_eq!(
        triggered(&hook(PATH_HOOK), &summary),
        Some(vec!["usr/lib/modules/6.1/x.ko".to_owned()])
    );
}

#[test]
fn a_path_written_and_taken_away_is_an_upgrade_not_both() {
    let shared = "usr/lib/modules/6.1/x.ko";
    let summary =
        Summary { added: vec![upgraded("linux", &[shared], &[shared])], ..Summary::default() };

    let install_only = "\
[Trigger]
Operation = Install
Type = Path
Target = usr/lib/modules/*

[Action]
When = PostTransaction
Exec = /bin/true
";
    assert_eq!(triggered(&hook(install_only), &summary), None, "counted as an install");

    let upgrade_only = install_only.replace("Operation = Install", "Operation = Upgrade");
    assert!(triggered(&hook(&upgrade_only), &summary).is_some());
}

#[test]
fn a_path_changing_owner_is_an_upgrade() {
    let shared = "usr/lib/modules/6.1/x.ko";
    let summary = Summary {
        added: vec![added("linux-new", &[shared])],
        removed: vec![removed("linux-old", &[shared])],
        ..Summary::default()
    };
    let upgrade_only = "\
[Trigger]
Operation = Upgrade
Type = Path
Target = usr/lib/modules/*

[Action]
When = PostTransaction
Exec = /bin/true
";
    assert!(triggered(&hook(upgrade_only), &summary).is_some());
}

#[test]
fn a_no_extract_path_does_not_trigger() {
    let summary = Summary {
        added: vec![added("linux", &["usr/lib/modules/6.1/x.ko"])],
        no_extract: vec!["usr/lib/modules/*".to_owned()],
        ..Summary::default()
    };
    assert_eq!(triggered(&hook(PATH_HOOK), &summary), None);
}

#[test]
fn an_inverted_target_excludes_what_an_earlier_one_matched() {
    let text = "\
[Trigger]
Operation = Install
Type = Path
Target = usr/lib/modules/*
Target = !usr/lib/modules/*/?*

[Action]
When = PostTransaction
Exec = /bin/true
NeedsTargets
";
    let summary = Summary {
        added: vec![added(
            "linux",
            &["usr/lib/modules/6.1/", "usr/lib/modules/6.1/kernel/fs/x.ko"],
        )],
        ..Summary::default()
    };
    assert_eq!(
        triggered(&hook(text), &summary),
        Some(vec!["usr/lib/modules/6.1/".to_owned()]),
        "the excluded path was reported as a target"
    );
}

#[test]
fn targets_are_only_collected_when_the_hook_asks_for_them() {
    let summary = Summary {
        added: vec![added("linux", &["usr/lib/modules/6.1/x.ko"])],
        ..Summary::default()
    };
    let without = PATH_HOOK.replace("NeedsTargets\n", "");
    assert_eq!(triggered(&hook(&without), &summary), Some(Vec::new()));
}

#[test]
fn needs_targets_joins_every_trigger() {
    let text = "\
[Trigger]
Operation = Install
Type = Package
Target = alpha

[Trigger]
Operation = Install
Type = Package
Target = beta

[Action]
When = PostTransaction
Exec = /bin/true
NeedsTargets
";
    let summary =
        Summary { added: vec![added("alpha", &[]), added("beta", &[])], ..Summary::default() };
    assert_eq!(
        triggered(&hook(text), &summary),
        Some(vec!["alpha".to_owned(), "beta".to_owned()])
    );
}

#[test]
fn only_the_selected_operations_are_reported_as_targets() {
    let text = "\
[Trigger]
Operation = Remove
Type = Package
Target = *

[Action]
When = PostTransaction
Exec = /bin/true
NeedsTargets
";
    let summary = Summary {
        added: vec![added("installed-one", &[])],
        removed: vec![removed("removed-one", &[])],
        ..Summary::default()
    };
    assert_eq!(triggered(&hook(text), &summary), Some(vec!["removed-one".to_owned()]));
}

#[test]
fn a_masking_hook_never_fires() {
    let summary = Summary { added: vec![added("anything", &[])], ..Summary::default() };
    assert_eq!(triggered(&hook(""), &summary), None);
}

#[test]
fn an_empty_transaction_fires_nothing() {
    for text in [PACKAGE_INSTALL, PATH_HOOK] {
        assert_eq!(triggered(&hook(text), &Summary::default()), None);
    }
}
