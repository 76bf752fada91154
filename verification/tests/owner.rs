//! Who owns a path.

use std::collections::BTreeMap;

use piko_txn::conflict::filelist::FileList;
use piko_txn::owner::{questions, to_canonicalize, Host, Owners, Package, QueryError};
use piko_txn::package::EntryName;
use piko_txn::table::Table;

const ROOT: &str = "/mnt/root";

fn database(packages: &[(&str, &[&str])]) -> Owners {
    Owners::new(
        packages
            .iter()
            .map(|(entry, files)| Package {
                name: EntryName::parse(entry).unwrap().name,
                files: FileList::new(files.iter().map(|file| (*file).to_owned()).collect()),
            })
            .collect(),
    )
}

fn host(entries: &[&str], links: &[&str]) -> Host {
    let mut seen: BTreeMap<String, bool> = BTreeMap::new();
    for entry in entries {
        let whole = format!("{ROOT}/{entry}");
        let pieces: Vec<&str> = whole.trim_matches('/').split('/').collect();
        for depth in 1..=pieces.len() {
            let here = format!("/{}", pieces[..depth].join("/"));
            let is_directory = depth < pieces.len() || whole.ends_with('/');
            seen.entry(here).or_insert(is_directory);
        }
    }
    for link in links {
        seen.insert(format!("{ROOT}/{link}"), false);
    }
    let mut there = Table::new();
    let mut canonical = Table::new();
    for (path, is_directory) in seen {
        canonical.insert(path.clone(), path.clone());
        there.insert(path, is_directory);
    }
    canonical.insert("/".to_owned(), "/".to_owned());
    canonical.insert(".".to_owned(), "/home/user".to_owned());
    Host { there, canonical }
}

fn inside(path: &str) -> String {
    format!("{ROOT}/{path}")
}

fn owners_of_path(owners: &Owners, host: &Host, path: &str) -> Vec<String> {
    owners.query(host, ROOT, &inside(path), &Vec::new()).unwrap().owners
}

#[test]
fn a_file_names_its_owner() {
    let owners = database(&[("foo-1.0.0-1", &["usr/", "usr/bin/", "usr/bin/foo"])]);
    let host = host(&["usr/bin/foo"], &[]);
    assert_eq!(owners_of_path(&owners, &host, "usr/bin/foo"), ["foo"]);
}

#[test]
fn a_directory_names_every_owner() {
    let owners = database(&[
        ("foo-1.0.0-1", &["usr/", "usr/bin/", "usr/bin/foo"]),
        ("bar-1.0.0-1", &["usr/", "usr/bin/", "usr/bin/bar"]),
    ]);
    let host = host(&["usr/bin/"], &[]);
    let mut named = owners_of_path(&owners, &host, "usr/bin");
    named.sort_unstable();
    assert_eq!(named, ["bar", "foo"]);
}

#[test]
fn a_file_with_two_owners_names_only_the_first() {
    let owners = database(&[
        ("aaa-1.0.0-1", &["usr/", "usr/bin/", "usr/bin/shared"]),
        ("zzz-1.0.0-1", &["usr/", "usr/bin/", "usr/bin/shared"]),
    ]);
    let host = host(&["usr/bin/shared"], &[]);
    assert_eq!(owners_of_path(&owners, &host, "usr/bin/shared"), ["aaa"]);
}

#[test]
fn a_trailing_slash_changes_nothing() {
    let owners = database(&[("foo-1.0.0-1", &["usr/", "usr/bin/"])]);
    let host = host(&["usr/bin/"], &[]);
    let first = owners.query(&host, ROOT, &inside("usr/bin"), &Vec::new()).unwrap();
    let second = owners.query(&host, ROOT, &inside("usr/bin/"), &Vec::new()).unwrap();
    assert_eq!(first.owners, ["foo"]);
    assert_eq!(first.query.relative, "usr/bin/");
    assert_eq!(first.query, second.query);
    assert_eq!(first.owners, second.owners);
}

#[test]
fn a_symlink_to_a_directory_is_asked_about_as_a_file() {
    let owners = database(&[
        ("link-1.0.0-1", &["usr/", "usr/lib"]),
        ("real-1.0.0-1", &["usr/", "usr/lib64/"]),
    ]);
    let host = host(&["usr/lib64/"], &["usr/lib"]);
    let answer = owners_of_path(&owners, &host, "usr/lib");
    assert_eq!(answer, ["link"], "the symlink's own entry has no trailing slash");
}

#[test]
fn a_path_nothing_ships_has_no_owner() {
    let owners = database(&[("foo-1.0.0-1", &["usr/", "usr/bin/", "usr/bin/foo"])]);
    let host = host(&["usr/bin/stray"], &[]);
    assert!(owners_of_path(&owners, &host, "usr/bin/stray").is_empty());
}

#[test]
fn a_path_outside_the_root_has_no_owner() {
    let owners = database(&[("foo-1.0.0-1", &["usr/", "usr/bin/", "usr/bin/foo"])]);
    let mut host = host(&["usr/bin/foo"], &[]);
    host.there.insert("/elsewhere/foo".to_owned(), false);
    host.canonical.insert("/elsewhere".to_owned(), "/elsewhere".to_owned());

    let answer = owners.query(&host, ROOT, "/elsewhere/foo", &Vec::new()).unwrap();
    assert!(answer.owners.is_empty());
    assert!(answer.query.relative.is_empty());
}

#[test]
fn the_root_itself_has_no_owner() {
    let owners = database(&[("foo-1.0.0-1", &["usr/", "usr/bin/"])]);
    let host = host(&["usr/"], &[]);
    let answer = owners.query(&host, ROOT, ROOT, &Vec::new()).unwrap();
    assert!(answer.owners.is_empty());
    assert!(answer.query.relative.is_empty());
}

#[test]
fn a_bare_name_is_found_through_the_search_path() {
    let owners = database(&[("foo-1.0.0-1", &["usr/", "usr/bin/", "usr/bin/foo"])]);
    let host = host(&["usr/bin/foo"], &[]);
    let search = vec![String::new(), inside("usr/sbin/"), inside("usr/bin/")];

    let answer = owners.query(&host, ROOT, "foo", &search).unwrap();
    assert_eq!(answer.owners, ["foo"]);
    assert_eq!(answer.query.relative, "usr/bin/foo");
    assert_eq!(answer.query.named, inside("usr/bin/foo"));
}

#[test]
fn the_first_search_path_entry_holding_the_name_wins() {
    let owners = database(&[
        ("early-1.0.0-1", &["usr/", "usr/sbin/", "usr/sbin/foo"]),
        ("late-1.0.0-1", &["usr/", "usr/bin/", "usr/bin/foo"]),
    ]);
    let host = host(&["usr/sbin/foo", "usr/bin/foo"], &[]);
    let search = vec![inside("usr/sbin"), inside("usr/bin")];
    assert_eq!(owners.query(&host, ROOT, "foo", &search).unwrap().owners, ["early"]);
}

#[test]
fn a_target_holding_a_slash_never_reaches_the_search_path() {
    let owners = database(&[("foo-1.0.0-1", &["usr/", "usr/bin/", "usr/bin/foo"])]);
    let host = host(&["usr/bin/foo"], &[]);
    let search = vec![inside("usr/bin")];
    let answer = owners.query(&host, ROOT, "./foo", &search).unwrap();
    assert!(answer.owners.is_empty());
}

#[test]
fn an_empty_target_is_the_one_failure() {
    let owners = database(&[("foo-1.0.0-1", &["usr/"])]);
    let host = host(&["usr/"], &[]);
    assert_eq!(
        owners.query(&host, ROOT, "", &Vec::new()).unwrap_err(),
        QueryError::EmptyOwnerTarget
    );
}

#[test]
fn an_unreadable_file_list_owns_nothing() {
    let owners =
        Owners::new(vec![Package { name: "foo".to_owned(), files: FileList::default() }]);
    let host = host(&["usr/bin/foo"], &[]);
    assert!(owners_of_path(&owners, &host, "usr/bin/foo").is_empty());
}

#[test]
fn the_index_is_built_once_for_many_targets() {
    let owners = database(&[("foo-1.0.0-1", &["usr/", "usr/bin/", "usr/bin/foo"])]);
    let host = host(&["usr/bin/foo"], &[]);
    for _ in 0..3 {
        assert_eq!(owners_of_path(&owners, &host, "usr/bin/foo"), ["foo"]);
    }
    assert_eq!(owners.all().len(), 1);
}

#[test]
fn a_path_that_cannot_be_canonicalized_is_left_as_it_is() {
    let owners = database(&[("foo-1.0.0-1", &["usr/", "srv/gone/"])]);
    let host = host(&["usr/"], &[]);
    let answer = owners.query(&host, ROOT, "/mnt/root/srv/gone/", &Vec::new()).unwrap();
    assert_eq!(answer.query.resolved, "/mnt/root/srv/gone/");
    assert_eq!(answer.query.relative, "srv/gone/");
    assert!(answer.query.is_directory);
    assert!(answer.owners.is_empty(), "it does not exist");
}

#[test]
fn a_query_asks_about_the_target_and_the_search_path() {
    let search = vec![String::new(), "/usr/bin".to_owned()];
    assert_eq!(questions("foo//", &search), ["foo", "/usr/bin/foo"]);
    assert_eq!(to_canonicalize("/usr/bin/foo"), "/usr/bin");
    assert_eq!(to_canonicalize("foo"), ".");
    assert_eq!(to_canonicalize("/"), "/");
}

#[test]
fn an_owner_is_found_by_the_exact_spelling() {
    let owners = database(&[("foo-1-1", &["usr/lib/"]), ("bar-1-1", &["usr/lib/"])]);
    assert_eq!(owners.owner_of("usr/lib/").as_deref(), Some("foo"));
    assert_eq!(owners.owners_of("usr/lib/"), ["foo", "bar"]);
    assert!(owners.anyone_owns("usr/lib/"));
    assert!(!owners.anyone_owns("usr/lib"));
    assert_eq!(owners.files_of("bar").unwrap().len(), 1);
    assert!(owners.files_of("baz").is_none());
}

#[test]
fn a_file_that_is_gone_has_no_owner() {
    let owners = database(&[("foo-1.0-1", &["usr/bin/foo"])]);
    let here = host(&["usr/bin/foo"], &[]);
    let gone = host(&["usr/bin/other"], &[]);
    assert_eq!(owners_of_path(&owners, &here, "usr/bin/foo"), ["foo"]);
    assert!(owners_of_path(&owners, &gone, "usr/bin/foo").is_empty());
}
