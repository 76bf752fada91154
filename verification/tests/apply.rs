//! Carrying out a disposition.

use piko_txn::extract::apply::{
    ids, pacnew_path, permissions, task, timestamp, Task, Write,
};
use piko_txn::extract::archive::{describe, Header, Member};
use piko_txn::extract::decision::{PacnewReason, RefuseReason, SkipReason};
use piko_txn::extract::{Disposition, Ownership};
use piko_txn::Error;

fn header() -> Header {
    Header {
        path: "usr/bin/foo".to_owned(),
        is_regular: true,
        is_dir: false,
        is_symlink: false,
        is_hard_link: false,
        link_name: None,
        mode: 0o104_755,
        uid: 1000,
        gid: u64::from(u32::MAX) + 1,
        mtime: 1_700_000_000,
        size: 3,
    }
}

fn member() -> Member {
    describe(header())
}

#[test]
fn a_skip_writes_nothing() {
    let done = task(&member(), Disposition::Skip(SkipReason::NoExtract)).unwrap();
    assert!(matches!(done, Task::Nothing));
}

#[test]
fn a_refusal_is_an_error() {
    let error =
        task(&member(), Disposition::Refuse(RefuseReason::DirectoryInTheWay)).unwrap_err();
    assert!(matches!(error, Error::ExtractionRefused { .. }), "got {error:?}");
}

#[test]
fn each_kind_of_member_is_written_in_its_own_way() {
    let written = |header: Header| match task(&describe(header), Disposition::Extract).unwrap() {
        Task::Write(write) => write,
        other => panic!("{other:?}"),
    };
    assert_eq!(written(header()), Write::File);
    assert_eq!(written(Header { is_dir: true, is_regular: false, ..header() }), Write::Directory);
    let target = Some("real".to_owned());
    assert_eq!(
        written(Header { is_symlink: true, is_regular: false, link_name: target.clone(), ..header() }),
        Write::Symlink("real".to_owned())
    );
    assert_eq!(
        written(Header { is_hard_link: true, link_name: target, ..header() }),
        Write::HardLink("real".to_owned())
    );
}

#[test]
fn a_diverted_member_keeps_its_reason() {
    let done = task(&member(), Disposition::ExtractAsPacnew(PacnewReason::NoUpgrade)).unwrap();
    assert!(matches!(done, Task::WritePacnew(Write::File, PacnewReason::NoUpgrade)));
    assert_eq!(pacnew_path("etc/foo.conf"), "etc/foo.conf.pacnew");
}

#[test]
fn metadata_is_narrowed_to_what_the_kernel_takes() {
    assert_eq!(permissions(&member()), 0o4755);
    assert_eq!(ids(&member(), Ownership::FromArchive), Some((1000, 0)));
    assert_eq!(ids(&member(), Ownership::Inherit), None);
    assert_eq!(timestamp(&member()), 1_700_000_000);
    assert_eq!(timestamp(&describe(Header { mtime: u64::MAX, ..header() })), 0);
}
