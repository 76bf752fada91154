//! Package archives.

use std::io::Read;

use piko_txn::error::Limit;
use piko_txn::extract::archive::{
    describe, sniff, walk, Arrival, Compression, Header, Member, MemberKind, PackageLimits, Walk,
    SNIFF_BYTES,
};
use piko_txn::extract::decision::EntryKind;
use piko_txn::Error;

fn tarball(build: impl FnOnce(&mut tar::Builder<Vec<u8>>)) -> Vec<u8> {
    let mut builder = tar::Builder::new(Vec::new());
    build(&mut builder);
    builder.into_inner().unwrap()
}

fn header(mode: u32) -> tar::Header {
    let mut header = tar::Header::new_gnu();
    header.set_mode(mode);
    header.set_uid(0);
    header.set_gid(0);
    header.set_mtime(0);
    header.set_size(0);
    header
}

fn file_entry(builder: &mut tar::Builder<Vec<u8>>, name: &str, contents: &[u8], mode: u32) {
    let mut header = header(mode);
    header.set_size(contents.len() as u64);
    header.set_cksum();
    builder.append_data(&mut header, name, contents).unwrap();
}

fn arrivals(bytes: &[u8]) -> (Vec<Arrival>, Vec<Vec<u8>>) {
    let mut found = Vec::new();
    let mut contents = Vec::new();
    let mut archive = tar::Archive::new(bytes);
    for entry in archive.entries().unwrap() {
        let mut entry = entry.unwrap();
        let kind = entry.header().entry_type();
        found.push(Arrival::Member(Header {
            path: entry.path().unwrap().to_str().unwrap().to_owned(),
            is_regular: kind.is_file(),
            is_dir: kind.is_dir(),
            is_symlink: kind.is_symlink(),
            is_hard_link: kind.is_hard_link(),
            link_name: entry
                .link_name()
                .unwrap()
                .map(|target| target.to_str().unwrap().to_owned()),
            mode: entry.header().mode().unwrap(),
            uid: entry.header().uid().unwrap(),
            gid: entry.header().gid().unwrap(),
            mtime: entry.header().mtime().unwrap(),
            size: entry.header().size().unwrap(),
        }));
        let mut buffer = Vec::new();
        entry.read_to_end(&mut buffer).unwrap();
        found.push(Arrival::Inflated(512 + buffer.len() as u64));
        contents.push(buffer);
    }
    (found, contents)
}

fn walk_bytes(bytes: &[u8], limits: PackageLimits) -> (Vec<Member>, Result<(), Error>) {
    let magic = &bytes[..bytes.len().min(SNIFF_BYTES)];
    walk("/p.pkg.tar", true, bytes.len() as u64, magic, arrivals(bytes).0, limits)
}

fn collect(bytes: &[u8]) -> Vec<(Member, Vec<u8>)> {
    let (members, result) = walk_bytes(bytes, PackageLimits::default());
    result.unwrap();
    members.into_iter().zip(arrivals(bytes).1).collect()
}

fn limit_of(error: &Error) -> Option<Limit> {
    match error {
        Error::PackageLimitExceeded { limit, .. } => Some(*limit),
        _ => None,
    }
}

#[test]
fn reads_members_and_their_contents() {
    let bytes = tarball(|builder| {
        file_entry(builder, "usr/bin/foo", b"binary", 0o755);
    });
    let members = collect(&bytes);
    assert_eq!(members.len(), 1);
    let (member, contents) = members.first().unwrap();
    assert_eq!(member.path, "usr/bin/foo");
    assert_eq!(member.kind, MemberKind::Payload);
    assert_eq!(member.entry, EntryKind::Other);
    assert_eq!(member.mode, 0o755);
    assert_eq!(contents, b"binary");
}

#[test]
fn classifies_metadata_members() {
    let bytes = tarball(|builder| {
        file_entry(builder, ".PKGINFO", b"pkgname = foo", 0o644);
        file_entry(builder, "usr/bin/foo", b"x", 0o755);
    });
    let members = collect(&bytes);
    assert_eq!(members.first().unwrap().0.kind, MemberKind::Metadata);
    assert_eq!(members.get(1).unwrap().0.kind, MemberKind::Payload);
}

#[test]
fn a_dotfile_deeper_in_the_tree_is_payload() {
    let bytes = tarball(|builder| {
        file_entry(builder, "usr/share/foo/.keep", b"", 0o644);
    });
    assert_eq!(collect(&bytes).first().unwrap().0.kind, MemberKind::Payload);
}

#[test]
fn recognises_directories_and_symlinks() {
    let bytes = tarball(|builder| {
        let mut directory = header(0o755);
        directory.set_entry_type(tar::EntryType::Directory);
        directory.set_cksum();
        builder.append_data(&mut directory, "usr/bin/", &[][..]).unwrap();

        let mut link = header(0o777);
        link.set_entry_type(tar::EntryType::Symlink);
        link.set_cksum();
        builder.append_link(&mut link, "usr/bin/bar", "foo").unwrap();
    });

    let members = collect(&bytes);
    assert_eq!(members.first().unwrap().0.entry, EntryKind::Directory);
    let symlink = &members.get(1).unwrap().0;
    assert!(symlink.is_symlink());
    assert!(!symlink.is_hard_link());
    assert_eq!(symlink.link.as_ref().map(|link| link.target.as_str()), Some("foo"));
}

#[test]
fn a_hard_link_is_not_mistaken_for_a_symlink() {
    let bytes = tarball(|builder| {
        file_entry(builder, "usr/bin/real", b"x", 0o755);
        let mut link = header(0o755);
        link.set_entry_type(tar::EntryType::Link);
        link.set_cksum();
        builder.append_link(&mut link, "usr/bin/alias", "usr/bin/real").unwrap();
    });

    let members = collect(&bytes);
    let hard = &members.get(1).unwrap().0;
    assert!(hard.is_hard_link(), "{hard:?}");
    assert!(!hard.is_symlink());
    assert_eq!(hard.link.as_ref().map(|link| link.target.as_str()), Some("usr/bin/real"));
}

#[test]
fn refuses_a_file_that_is_not_an_archive() {
    let bytes = b"this is not a package";
    let (members, result) =
        walk("/not", true, bytes.len() as u64, bytes, Vec::new(), PackageLimits::default());
    assert!(members.is_empty());
    let err = result.unwrap_err();
    assert!(matches!(err, Error::UnsupportedCompression { .. }), "got {err:?}");
}

#[test]
fn refuses_a_package_over_the_compressed_limit() {
    let bytes = tarball(|builder| file_entry(builder, "usr/bin/foo", b"x", 0o755));
    let limits = PackageLimits { compressed_bytes: 4, ..PackageLimits::default() };
    let err = walk_bytes(&bytes, limits).1.unwrap_err();
    assert_eq!(limit_of(&err), Some(Limit::CompressedSize), "got {err:?}");
    assert_eq!(err.message(), "/p.pkg.tar exceeds the compressed size limit of 4");
}

#[test]
fn refuses_a_package_over_the_inflated_limit() {
    let bytes = tarball(|builder| {
        file_entry(builder, "usr/share/big", &vec![b'x'; 64 * 1024], 0o644);
    });
    let limits = PackageLimits { inflated_bytes: 1024, ..PackageLimits::default() };
    let err = walk_bytes(&bytes, limits).1.unwrap_err();
    assert_eq!(limit_of(&err), Some(Limit::InflatedSize), "got {err:?}");
}

#[test]
fn refuses_a_package_with_too_many_members() {
    let bytes = tarball(|builder| {
        for index in 0..10 {
            file_entry(builder, &format!("usr/share/f{index}"), b"x", 0o644);
        }
    });
    let limits = PackageLimits { max_members: 3, ..PackageLimits::default() };
    let (members, result) = walk_bytes(&bytes, limits);
    let err = result.unwrap_err();
    assert_eq!(limit_of(&err), Some(Limit::MemberCount), "got {err:?}");
    assert_eq!(members.len(), 3);
}

#[test]
fn a_member_whose_contents_are_not_read_is_skipped_cleanly() {
    let bytes = tarball(|builder| {
        file_entry(builder, "usr/share/a", &vec![b'a'; 5000], 0o644);
        file_entry(builder, "usr/share/b", b"second", 0o644);
    });
    let (members, result) = walk_bytes(&bytes, PackageLimits::default());
    result.unwrap();
    let names: Vec<&str> = members.iter().map(|member| member.path.as_str()).collect();
    assert_eq!(names, ["usr/share/a", "usr/share/b"]);
}

#[test]
fn sniffs_every_supported_format() {
    assert_eq!(sniff(&[0x1f, 0x8b, 0, 0]), Some(Compression::Gzip));
    assert_eq!(sniff(&[0x28, 0xb5, 0x2f, 0xfd]), Some(Compression::Zstd));
    assert_eq!(sniff(&[0xfd, 0x37, 0x7a, 0x58, 0x5a, 0x00]), Some(Compression::Xz));
    assert_eq!(sniff(b"BZh9"), Some(Compression::Bzip2));
    assert!(sniff(b"nonsense").is_none());
    let bytes = tarball(|builder| file_entry(builder, "usr/bin/foo", b"x", 0o755));
    assert_eq!(sniff(&bytes[..SNIFF_BYTES]), Some(Compression::Uncompressed));
    assert!(sniff(&bytes[..SNIFF_BYTES - 1]).is_none());
}

#[test]
fn a_bound_is_told_apart_from_a_corrupt_archive() {
    let limits = PackageLimits { inflated_bytes: 10, ..PackageLimits::default() };
    let mut walk = Walk::open("/p", true, 1, limits).unwrap();
    assert!(walk.inflated(10));
    assert_eq!(walk.failure("/p", "bad checksum".to_owned()).message(), "failed to read /p");
    assert!(!walk.inflated(1));
    assert_eq!(
        walk.failure("/p", "decompressed size limit exceeded".to_owned()).message(),
        "/p exceeds the inflated size limit of 10"
    );
    let arrivals = vec![Arrival::Failed("bad checksum".to_owned())];
    let magic = [0x1f, 0x8b];
    let (_, result) = walk_all(&magic, arrivals);
    assert!(matches!(result, Err(Error::Io { .. })));
}

fn walk_all(magic: &[u8], arrivals: Vec<Arrival>) -> (Vec<Member>, Result<(), Error>) {
    walk("/p", true, 2, magic, arrivals, PackageLimits::default())
}

#[test]
fn only_a_regular_file_is_opened() {
    assert_eq!(
        Walk::open("/p", false, 0, PackageLimits::default()).unwrap_err().message(),
        "/p is not a usable package source: not a regular file"
    );
}

#[test]
fn only_a_name_before_the_first_slash_makes_metadata() {
    let kind = |path: &str| {
        describe(Header {
            path: path.to_owned(),
            is_regular: true,
            is_dir: false,
            is_symlink: false,
            is_hard_link: false,
            link_name: None,
            mode: 0,
            uid: 0,
            gid: 0,
            mtime: 0,
            size: 0,
        })
        .kind
    };
    assert_eq!(kind(".MTREE"), MemberKind::Metadata);
    assert_eq!(kind(".hidden/file"), MemberKind::Metadata);
    assert_eq!(kind("./usr/bin"), MemberKind::Payload);
    assert_eq!(kind("../usr"), MemberKind::Payload);
    assert_eq!(kind("/.x"), MemberKind::Payload);
    assert_eq!(kind("..."), MemberKind::Metadata);
}
