//! Database entries.

use piko_txn::hash::{file_md5, MAX_BACKUP_BYTES};
use piko_txn::install::Extraction;
use piko_txn::package::InstallReason;
use piko_txn::pkginfo::{parse, PackageInfo};
use piko_txn::record::{desc, files, InstallFacts, Record, Validation};

const PKGINFO: &str = "\
pkgname = foo
pkgbase = foo
pkgver = 1.0.0-1
pkgdesc = An example package
url = https://example.org/
builddate = 1733737242
packager = Foobar McFooface <foobar@mcfooface.org>
size = 123
arch = x86_64
license = MIT
depend = bar
";

fn info() -> PackageInfo {
    parse(PKGINFO).unwrap()
}

fn facts() -> InstallFacts {
    InstallFacts {
        install_date: 1_733_737_243,
        reason: InstallReason::Explicit,
        validation: vec![Validation::Unchecked],
    }
}

#[test]
fn desc_sections_are_in_pacmans_order() {
    let record = desc(&info(), PKGINFO, &facts());
    let order: Vec<&str> = record.sections().iter().map(|s| s.keyword()).collect();
    assert_eq!(
        order,
        [
            "NAME",
            "VERSION",
            "BASE",
            "DESC",
            "URL",
            "ARCH",
            "BUILDDATE",
            "INSTALLDATE",
            "PACKAGER",
            "SIZE",
            "LICENSE",
            "VALIDATION",
            "DEPENDS"
        ]
    );
}

#[test]
fn desc_transcribes_the_pkginfo() {
    let record = desc(&info(), PKGINFO, &facts());
    assert_eq!(record.get("NAME").unwrap(), &["foo"]);
    assert_eq!(record.get("VERSION").unwrap(), &["1.0.0-1"]);
    assert_eq!(record.get("SIZE").unwrap(), &["123"]);
    assert_eq!(record.get("DEPENDS").unwrap(), &["bar"]);
    assert_eq!(record.get("INSTALLDATE").unwrap(), &["1733737243"]);
}

#[test]
fn an_explicit_install_omits_the_reason() {
    assert!(desc(&info(), PKGINFO, &facts()).get("REASON").is_none());

    let as_dependency = InstallFacts { reason: InstallReason::Depend, ..facts() };
    let record = desc(&info(), PKGINFO, &as_dependency);
    assert_eq!(record.get("REASON").unwrap(), &["1"]);
}

#[test]
fn the_reason_lands_in_its_canonical_position() {
    let as_dependency = InstallFacts { reason: InstallReason::Depend, ..facts() };
    let record = desc(&info(), PKGINFO, &as_dependency);
    let order: Vec<&str> = record.sections().iter().map(|s| s.keyword()).collect();
    let size = order.iter().position(|k| *k == "SIZE").unwrap();
    let reason = order.iter().position(|k| *k == "REASON").unwrap();
    let license = order.iter().position(|k| *k == "LICENSE").unwrap();
    assert!(size < reason && reason < license, "{order:?}");
}

#[test]
fn empty_sections_are_omitted() {
    let record = desc(&info(), PKGINFO, &facts());
    assert!(record.get("GROUPS").is_none());
    assert!(record.get("CONFLICTS").is_none());
    assert!(record.get("REPLACES").is_none());
}

#[test]
fn files_lists_what_was_installed() {
    let mut extraction = Extraction::new();
    extraction.owned =
        vec!["usr/".to_owned(), "usr/bin/".to_owned(), "usr/bin/foo".to_owned()];
    let record = files(&extraction);
    assert_eq!(record.get("FILES").unwrap(), &["usr/", "usr/bin/", "usr/bin/foo"]);
    assert!(record.get("BACKUP").is_none(), "no backups, no section");
}

#[test]
fn files_records_backup_hashes_tab_separated() {
    let mut extraction = Extraction::new();
    extraction.owned = vec!["etc/foo.conf".to_owned()];
    let hash = file_md5("f", b"x", MAX_BACKUP_BYTES).unwrap();
    extraction.record_hash("etc/foo.conf".to_owned(), hash.clone());
    let record = files(&extraction);

    let backup = record.get("BACKUP").unwrap().first().unwrap().clone();
    assert_eq!(backup, format!("etc/foo.conf\t{hash}"));
    assert!(backup.contains('\t'), "pacman separates path and hash with a tab");
}

#[test]
fn the_built_records_round_trip() {
    let record = desc(&info(), PKGINFO, &facts());
    let text = record.render();
    assert_eq!(Record::parse(&text).unwrap().render(), text);

    let mut extraction = Extraction::new();
    extraction.owned = vec!["usr/bin/foo".to_owned()];
    let record = files(&extraction);
    let text = record.render();
    assert_eq!(text, "%FILES%\nusr/bin/foo\n\n");
    assert_eq!(Record::parse(&text).unwrap().render(), text);
}

#[test]
fn the_raw_text_is_what_is_stored() {
    let raw = PKGINFO
        .replace("https://example.org/", "https://example.org")
        .replace("Foobar McFooface <foobar@mcfooface.org>", "Unknown Packager");
    let record = desc(&parse(&raw).unwrap(), &raw, &facts());
    assert_eq!(record.get("URL").unwrap(), &["https://example.org"]);
    assert_eq!(record.get("PACKAGER").unwrap(), &["Unknown Packager"]);
}

#[test]
fn a_size_of_nothing_is_omitted() {
    let raw = PKGINFO.replace("size = 123", "size = 0");
    assert!(desc(&parse(&raw).unwrap(), &raw, &facts()).get("SIZE").is_none());
}

#[test]
fn validations_are_spelled_in_lower_case() {
    let every = InstallFacts {
        validation: vec![
            Validation::Unchecked,
            Validation::Md5,
            Validation::Sha256,
            Validation::Pgp,
        ],
        ..facts()
    };
    let record = desc(&info(), PKGINFO, &every);
    assert_eq!(record.get("VALIDATION").unwrap(), &["none", "md5", "sha256", "pgp"]);
}

#[test]
fn a_line_outside_of_a_section_is_refused() {
    assert!(Record::parse("stray\n").is_none());
    assert!(Record::parse("%A%\nvalue\n\nstray\n").is_none());
    let record = Record::parse("\n%A%\nvalue\n\n%B%\n%C%").unwrap();
    assert_eq!(record.get("A").unwrap(), &["value"]);
    assert_eq!(record.get("B").unwrap(), &["%C%"]);
}
