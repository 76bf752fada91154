//! Package files named on the command line.

use piko_txn::conflict::load::load_pkginfo;
use piko_txn::file_target::{
    check_architecture, check_duplicates, fetch_url, load, named_url, parse_url, Cached, Fetch,
    FileTarget, TargetError,
};
use piko_txn::plan::Policy;

fn pkginfo(name: &str, version: &str, arch: &str) -> String {
    format!(
        "pkgname = {name}\n\
         pkgbase = {name}\n\
         pkgver = {version}\n\
         pkgdesc = An example package\n\
         url = https://example.org/\n\
         builddate = 1733737242\n\
         packager = Foobar McFooface <foobar@mcfooface.org>\n\
         size = 4096\n\
         arch = {arch}\n\
         license = MIT\n\
         depend = glibc\n\
         depend = libfoo.so=1-64\n\
         provides = foo-api=2\n\
         conflict = oldfoo\n\
         replaces = ancientfoo\n\
         group = base\n"
    )
}

fn policy() -> Policy {
    Policy { check: true, optional: true }
}

fn target(path: &str, pkginfo: &str) -> FileTarget {
    let (info, _raw) = load_pkginfo(path, Some(pkginfo.to_owned())).unwrap();
    load(path, &info, policy()).unwrap()
}

fn arch(spelled: &str) -> String {
    spelled.to_owned()
}

#[test]
fn every_section_a_candidate_needs_comes_out_of_the_pkginfo() {
    let target = target("/foo.pkg.tar", &pkginfo("foo", "1.0.0-1", "x86_64"));
    let candidate = target.candidate();

    assert_eq!(candidate.entry.name, "foo");
    assert_eq!(candidate.entry.version, "1.0.0-1");
    assert_eq!(candidate.installed_size, 4096);
    assert_eq!(candidate.depends.len(), 2);
    assert_eq!(candidate.provides.len(), 1);
    assert_eq!(candidate.conflicts.len(), 1);
    assert_eq!(candidate.replaces.len(), 1);
    assert_eq!(candidate.groups.len(), 1);
    assert_eq!(target.policy(), policy());
    assert_eq!(target.architecture(), "x86_64");
}

#[test]
fn the_addressing_name_comes_from_the_metadata_not_the_file_name() {
    let renamed = target("/renamed.pkg.tar", &pkginfo("foo", "1.0.0-1", "x86_64"));
    assert_eq!(renamed.file_name(), "foo-1.0.0-1-x86_64.pkg.tar");
    assert_eq!(renamed.path(), "/renamed.pkg.tar");
    let packed = target("/renamed.pkg.tar.zst", &pkginfo("foo", "1.0.0-1", "x86_64"));
    assert_eq!(packed.file_name(), "foo-1.0.0-1-x86_64.pkg.tar.zst");
}

#[test]
fn an_architecture_this_machine_cannot_run_is_refused() {
    let targets = vec![target("/foo.pkg.tar", &pkginfo("foo", "1.0.0-1", "aarch64"))];

    let error = check_architecture(&targets, &vec![arch("x86_64")]).unwrap_err();
    assert!(matches!(&error, TargetError::WrongArchitecture { packages, configured }
        if packages == &["foo-1.0.0-1-aarch64.pkg.tar (aarch64)"] && configured == &["x86_64"]),
        "got {error:?}");

    check_architecture(&targets, &Vec::new()).unwrap();
    check_architecture(&targets, &vec![arch("aarch64")]).unwrap();
}

#[test]
fn an_any_package_runs_everywhere() {
    let targets = vec![target("/foo.pkg.tar", &pkginfo("foo", "1.0.0-1", "any"))];
    check_architecture(&targets, &vec![arch("x86_64")]).unwrap();
}

#[test]
fn two_files_naming_one_package_are_refused() {
    let info = pkginfo("foo", "1.0.0-1", "x86_64");
    let targets = vec![target("/one.pkg.tar", &info), target("/two.pkg.tar", &info)];

    let error = check_duplicates(&targets).unwrap_err();
    assert!(matches!(&error, TargetError::DuplicateTarget { package, first, second }
        if package == "foo-1.0.0-1-x86_64.pkg.tar"
            && first == "/one.pkg.tar"
            && second == "/two.pkg.tar"), "got {error:?}");
}

#[test]
fn two_different_packages_are_not_duplicates() {
    let targets = vec![
        target("/a.pkg.tar", &pkginfo("foo", "1.0.0-1", "x86_64")),
        target("/b.pkg.tar", &pkginfo("bar", "1.0.0-1", "x86_64")),
    ];
    check_duplicates(&targets).unwrap();
}

#[test]
fn a_url_that_names_no_package_is_refused_before_any_io() {
    for url in ["https://host/notapackage", "https://host/"] {
        let error = parse_url(url).unwrap_err();
        assert!(matches!(error, TargetError::InvalidPackageUrl { .. }), "{url}: got {error:?}");
    }
    assert!(matches!(parse_url("notaurl").unwrap_err(),
        TargetError::InvalidPackageUrl { reason, .. } if reason == "it has no path component"));
    assert!(matches!(parse_url("https://host/notapackage").unwrap_err(),
        TargetError::InvalidPackageUrl { reason, .. }
            if reason.starts_with("\"notapackage\" is not a package file name: ")));
    let found = parse_url("https://host/a/foo-1.0.0-1-x86_64.pkg.tar.zst").unwrap();
    assert_eq!(found.server, "https://host/a");
    assert_eq!(found.file_name.name, "foo");
    assert_eq!(found.file_name.version, "1.0.0-1");
}

#[test]
fn a_cached_url_is_used_only_when_its_signature_is_there_too() {
    let target = parse_url("https://host/a/foo-1.0.0-1-x86_64.pkg.tar.zst").unwrap();
    let copy = |signed: bool| Cached { path: "/cache/foo".to_owned(), signed };
    let used = |located: Option<Cached>, check: bool| {
        match fetch_url(target.clone(), located, Policy { check, ..policy() }) {
            Fetch::Cached { path } => {
                assert_eq!(path, "/cache/foo");
                true
            },
            Fetch::Download { target } => {
                assert_eq!(target.server, "https://host/a");
                assert_eq!(target.file_name.name, "foo");
                false
            },
        }
    };
    assert!(used(Some(copy(false)), false));
    assert!(!used(Some(copy(false)), true));
    assert!(used(Some(copy(true)), true));
    assert!(!used(None, false));
    assert!(!used(None, true));
}

#[test]
fn a_refused_file_name_carries_the_words_it_was_refused_with() {
    let refused =
        named_url("u", "s".to_owned(), "x\ty", Err("no version".to_owned())).unwrap_err();
    assert!(matches!(refused, TargetError::InvalidPackageUrl { reason, .. }
        if reason == "\"x\\ty\" is not a package file name: no version"));
}
