//! File lists.

use piko_txn::conflict::filelist::{is_directory, pathcmp, FileList};

fn list(paths: &[&str]) -> FileList {
    FileList::new(paths.iter().map(|path| (*path).to_owned()).collect())
}

#[test]
fn a_list_is_sorted_however_it_is_built() {
    let sorted = list(&["usr/bin/z", "usr/bin/a", "etc/foo"]);
    assert_eq!(sorted.iter(), ["etc/foo", "usr/bin/a", "usr/bin/z"]);
}

#[test]
fn contains_does_not_confuse_a_file_with_a_directory() {
    let files = list(&["usr/lib/foo/"]);
    assert!(files.contains("usr/lib/foo/"));
    assert!(!files.contains("usr/lib/foo"));
}

#[test]
fn difference_keeps_only_what_is_new_and_keeps_it_sorted() {
    let new = list(&["usr/bin/a", "usr/bin/b", "usr/bin/c"]);
    let old = list(&["usr/bin/b"]);
    assert_eq!(new.difference(&old), ["usr/bin/a", "usr/bin/c"]);
}

#[test]
fn difference_treats_a_file_and_a_directory_of_one_name_as_distinct() {
    let new = list(&["usr/lib/foo/"]);
    let old = list(&["usr/lib/foo"]);
    assert_eq!(new.difference(&old), ["usr/lib/foo/"]);
}

#[test]
fn two_packages_shipping_the_same_file_intersect() {
    let a = list(&["usr/bin/foo"]);
    let b = list(&["usr/bin/foo"]);
    assert_eq!(a.intersection(&b), ["usr/bin/foo"]);
}

#[test]
fn two_packages_sharing_a_directory_do_not_intersect() {
    let a = list(&["usr/", "usr/bin/", "usr/bin/a"]);
    let b = list(&["usr/", "usr/bin/", "usr/bin/b"]);
    assert!(a.intersection(&b).is_empty());
}

#[test]
fn a_file_and_a_directory_of_the_same_name_intersect() {
    let a = list(&["usr/lib/foo"]);
    let b = list(&["usr/lib/foo/", "usr/lib/foo/bar"]);
    assert_eq!(a.intersection(&b), ["usr/lib/foo"]);
    assert_eq!(b.intersection(&a), ["usr/lib/foo/"]);
}

fn libalpm_intersection<'a>(left: &'a FileList, right: &FileList) -> Vec<&'a str> {
    let (a, b) = (left.iter(), right.iter());
    let (a, b): (Vec<&'a str>, Vec<&str>) = (a, b);
    let (mut i, mut j) = (0_usize, 0_usize);
    let mut out = Vec::new();
    while i < a.len() && j < b.len() {
        match pathcmp(a[i], b[j]) {
            std::cmp::Ordering::Less => i = i.saturating_add(1),
            std::cmp::Ordering::Greater => j = j.saturating_add(1),
            std::cmp::Ordering::Equal => {
                if !is_directory(a[i]) || !is_directory(b[j]) {
                    out.push(a[i]);
                }
                i = i.saturating_add(1);
                j = j.saturating_add(1);
            }
        }
    }
    out
}

#[test]
fn the_libalpm_merge_can_step_past_a_conflict() {
    let a = list(&["usr/lib/foo"]);
    let b = list(&["usr/lib/foo!", "usr/lib/foo/"]);

    assert_eq!(b.iter(), ["usr/lib/foo!", "usr/lib/foo/"]);
    assert!(
        libalpm_intersection(&a, &b).is_empty(),
        "the merge found the pair"
    );
    assert_eq!(a.intersection(&b), ["usr/lib/foo"]);
}

#[test]
fn the_two_intersections_agree_on_ordinary_lists() {
    let a = list(&["etc/x", "usr/", "usr/bin/", "usr/bin/a", "usr/share/doc/"]);
    let b = list(&["etc/x", "usr/", "usr/bin/", "usr/bin/b", "usr/share/doc"]);
    assert_eq!(a.intersection(&b), libalpm_intersection(&a, &b));
    assert_eq!(a.intersection(&b), ["etc/x", "usr/share/doc/"]);
}

#[test]
fn an_empty_list_intersects_with_nothing() {
    let empty = FileList::default();
    assert!(empty.intersection(&list(&["usr/bin/a"])).is_empty());
    assert!(list(&["usr/bin/a"]).intersection(&empty).is_empty());
    assert!(empty.is_empty());
    assert_eq!(empty.len(), 0);
}

#[test]
fn pathcmp_ignores_exactly_one_trailing_slash() {
    assert_eq!(pathcmp("a", "a/"), std::cmp::Ordering::Equal);
    assert_eq!(pathcmp("a/", "a"), std::cmp::Ordering::Equal);
    assert_eq!(pathcmp("a", "a//"), std::cmp::Ordering::Less);
    assert_eq!(pathcmp("a/b", "a"), std::cmp::Ordering::Greater);
}
