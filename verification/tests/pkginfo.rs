//! Reading a `.PKGINFO`.

use piko_txn::pkginfo::{
    parse, raw_field, raw_fields, read, substitute_unknown_packager, UNKNOWN_PACKAGER,
};

fn pkginfo(packager: &str) -> String {
    format!(
        "pkgname = foo\npkgbase = foo\npkgver = 1.0.0-1\npkgdesc = an example\n\
         url = https://example.org/\nbuilddate = 1\npackager = {packager}\nsize = 1\n\
         arch = x86_64\n"
    )
}

#[test]
fn makepkgs_default_packager_is_accepted() {
    let info = parse(&pkginfo(UNKNOWN_PACKAGER)).unwrap();
    assert!(info.xdata.is_empty(), "a .PKGINFO with no xdata is v1");
    assert_eq!(info.pkgname, "foo");
}

#[test]
fn any_other_packager_without_an_email_still_fails() {
    for packager in ["Jane Doe", "", "Unknown Packager!", "unknown packager"] {
        assert!(parse(&pkginfo(packager)).is_err(), "{packager:?} must not be accepted");
    }
}

#[test]
fn a_real_packager_is_parsed_and_the_text_is_not_copied() {
    let raw = pkginfo("Jane Doe <jane@example.org>");
    assert!(substitute_unknown_packager(&raw).is_none());
    assert!(parse(&raw).is_ok());
}

#[test]
fn every_default_packager_line_is_rewritten() {
    assert_eq!(
        substitute_unknown_packager("a = b\npackager = Unknown Packager\nc = d").unwrap(),
        "a = b\npackager = Unknown Packager <unknown@example.invalid>\nc = d\n"
    );
    assert!(substitute_unknown_packager("packager = Unknown Packager <a@b.c>\n").is_none());
}

#[test]
fn every_field_of_the_file_is_read() {
    let raw = "pkgname = foo\npkgbase = foobase\nxdata = pkgtype=pkg\nxdata = key=value\n\
               pkgver = 1:1.0.0-1\npkgdesc = an example\nurl = https://example.org\n\
               builddate = 7\npackager = Jane Doe <jane@example.org>\nsize = 42\n\
               arch = x86_64\nlicense = MIT\nlicense = Apache-2.0\nreplaces = old\n\
               group = base\nconflict = other\nprovides = api=2\ndepend = glibc\n\
               depend = libfoo.so=1-64\noptdepend = ruby: for scripts\nmakedepend = cmake\n";
    let info = parse(raw).unwrap();
    assert_eq!(info.pkgbase, "foobase");
    assert_eq!(info.pkgver, "1:1.0.0-1");
    assert_eq!(info.pkgdesc, "an example");
    assert_eq!(info.url, "https://example.org/", "the typed parse normalises it");
    assert_eq!(info.builddate, "7");
    assert_eq!(info.packager, "Jane Doe <jane@example.org>");
    assert_eq!(info.size, "42");
    assert_eq!(info.arch, "x86_64");
    assert_eq!(info.license, ["MIT", "Apache-2.0"]);
    assert_eq!(info.replaces, ["old"]);
    assert_eq!(info.group, ["base"]);
    assert_eq!(info.conflict, ["other"]);
    assert_eq!(info.provides, ["api=2"]);
    assert_eq!(info.depend, ["glibc", "libfoo.so=1-64"]);
    assert_eq!(info.optdepend, ["ruby: for scripts"]);
    assert_eq!(info.xdata, ["pkgtype=pkg", "key=value"]);
}

#[test]
fn a_raw_field_is_read_as_it_is_written() {
    let raw = "# url = https://commented\nurl=no separator\nurl = https://a = b \nurl = second\n";
    assert_eq!(raw_field(raw, "url").as_deref(), Some("https://a = b "));
    assert_eq!(raw_field(raw, "packager"), None);
    assert_eq!(raw_fields(raw, "url"), ["https://a = b ", "second"]);
}

#[test]
fn a_written_file_is_taken_apart() {
    let info = read("pkgname = foo\nlicense = MIT\n", vec!["pkgtype=pkg".to_owned()]);
    assert_eq!(info.pkgname, "foo");
    assert_eq!(info.pkgbase, "");
    assert_eq!(info.license, ["MIT"]);
    assert_eq!(info.xdata, ["pkgtype=pkg"]);
}
