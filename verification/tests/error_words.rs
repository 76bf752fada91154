//! The words of errors.

use piko_txn::conflict::{Blocker, FileConflict};
use piko_txn::error::{IoAction, Limit};
use piko_txn::Error;

#[test]
fn error_is_send_sync_static() {
    const fn assert_send_sync<T: Send + Sync + 'static>() {}
    assert_send_sync::<Error>();
}

#[test]
fn not_available_names_where_it_looked() {
    let err = Error::NotAvailable {
        file_name: "foo-1.0.0-1-x86_64.pkg.tar.zst".to_owned(),
        searched: vec!["/var/cache/pacman/pkg".to_owned()],
        skipped: Vec::new(),
    };
    let message = err.message();
    assert!(message.contains("foo-1.0.0-1-x86_64.pkg.tar.zst"), "{message}");
    assert!(message.contains("/var/cache/pacman/pkg"), "{message}");
}

#[test]
fn not_available_names_what_it_rejected() {
    let err = Error::NotAvailable {
        file_name: "foo-1.0.0-1-x86_64.pkg.tar.zst".to_owned(),
        searched: vec!["/cache".to_owned(), "/other".to_owned()],
        skipped: vec!["/cache/foo-1.0.0-1-x86_64.pkg.tar.zst: not a regular file".to_owned()],
    };
    let message = err.message();
    assert!(message.contains("not a regular file"), "{message}");
    assert_eq!(
        message,
        "foo-1.0.0-1-x86_64.pkg.tar.zst is not available from any configured source \
         (searched /cache, /other; rejected \
         /cache/foo-1.0.0-1-x86_64.pkg.tar.zst: not a regular file)"
    );
}

#[test]
fn only_the_first_conflicts_are_named() {
    let conflict = |index: usize| FileConflict {
        package: "foo".to_owned(),
        path: format!("usr/bin/{index}"),
        blocker: Blocker::Filesystem { owner: None },
    };
    let err = Error::FileConflicts { conflicts: (0..12).map(conflict).collect() };
    let message = err.message();
    assert!(message.starts_with("the transaction would overwrite 12 file(s) it does not own:\n  foo: usr/bin/0 (exists in filesystem)\n  foo"), "{message}");
    assert!(message.ends_with("foo: usr/bin/9 (exists in filesystem)\n  ... and 2 more"), "{message}");
    let err = Error::FileConflicts { conflicts: vec![conflict(0)] };
    assert!(err.message().ends_with("(exists in filesystem)"));
}

#[test]
fn each_error_has_its_words() {
    let own = |text: &str| text.to_owned();
    let cases = [
        (
            Error::Io { path: own("/p"), action: IoAction::Rename, source: own("x") },
            "failed to rename onto /p",
        ),
        (
            Error::UnsafeArchivePath { path: own("../a"), reason: own("it leaves") },
            "../a is not a safe path to extract: it leaves",
        ),
        (
            Error::PathEscapesRoot { path: own("a/b"), component: own("a"), reason: own("a link") },
            "a/b would be extracted outside the installation root: a — a link",
        ),
        (
            Error::PackageLimitExceeded { path: own("/p"), limit: Limit::MemberCount, max: 3 },
            "/p exceeds the member count limit of 3",
        ),
        (
            Error::UnsupportedCompression { path: own("/p") },
            "/p does not use a supported compression format",
        ),
        (
            Error::UnreadableEntry { entry: own("a-1-1"), reason: own("x") },
            "the installed entry a-1-1 cannot be read: x",
        ),
        (
            Error::HookAborted { hook: own("a.hook"), output: vec![own("one"), own("two")] },
            "the transaction was stopped by the hook a.hook, which sets AbortOnFail\n  one\n  two",
        ),
        (
            Error::HookAborted { hook: own("a.hook"), output: Vec::new() },
            "the transaction was stopped by the hook a.hook, which sets AbortOnFail",
        ),
        (Error::SignatureRejected { package: own("/p"), reason: own("bad") }, "/p: bad"),
        (
            Error::SignatureUncheckable { package: own("/p"), reason: own("no key") },
            "cannot check the signature of /p: no key",
        ),
        (Error::Database { message: own("locked") }, "locked"),
        (
            Error::LocalDatabaseUnreadable { path: own("/db"), source: own("x") },
            "the local database at /db cannot be opened",
        ),
    ];
    for (error, words) in cases {
        assert_eq!(error.message(), words);
    }
}

#[test]
fn each_action_has_its_verb() {
    let verbs: Vec<&str> = [
        IoAction::Metadata,
        IoAction::Open,
        IoAction::Read,
        IoAction::CreateDir,
        IoAction::Decompress,
        IoAction::Create,
        IoAction::Write,
        IoAction::Remove,
        IoAction::Rename,
        IoAction::Sync,
        IoAction::Chown,
    ]
    .into_iter()
    .map(IoAction::as_str)
    .collect();
    assert_eq!(
        verbs,
        [
            "stat",
            "open",
            "read",
            "create directory",
            "decompress",
            "create",
            "write",
            "remove",
            "rename onto",
            "flush to disk",
            "change ownership of",
        ]
    );
}
