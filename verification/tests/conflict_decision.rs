//! Whether a path may be written.

use piko_txn::conflict::decision::{decide, FilesystemContext, Resolution, Verdict};
use piko_txn::extract::decision::Existing;

fn context(existing: Existing) -> FilesystemContext<'static> {
    FilesystemContext {
        package_says_directory: false,
        existing,
        resolves_to_directory: existing == Existing::Directory,
        old_version_owns_file: false,
        owned_by_removal: false,
        changing_owner_from: None,
        directory_emptied_by_transaction: false,
        new_is_backup: false,
        owned_by_anyone: false,
        overwrite: false,
    }
}

#[test]
fn an_unexplained_file_is_a_conflict() {
    assert_eq!(decide(&context(Existing::Other)), Verdict::Conflict);
}

#[test]
fn an_absent_path_is_never_a_conflict() {
    let mut ctx = context(Existing::Absent);
    ctx.owned_by_anyone = true;
    assert_eq!(decide(&ctx), Verdict::Resolved(Resolution::NotPresent));
}

#[test]
fn a_shared_directory_is_not_a_conflict() {
    let mut ctx = context(Existing::Directory);
    ctx.package_says_directory = true;
    assert_eq!(decide(&ctx), Verdict::Resolved(Resolution::DirectoryAlreadyThere));
}

#[test]
fn a_symlink_to_a_directory_satisfies_a_packaged_directory() {
    let mut ctx = context(Existing::Other);
    ctx.package_says_directory = true;
    ctx.resolves_to_directory = true;
    assert_eq!(decide(&ctx), Verdict::Resolved(Resolution::DirectoryAlreadyThere));
}

#[test]
fn a_packaged_directory_over_a_plain_file_is_a_conflict() {
    let mut ctx = context(Existing::Other);
    ctx.package_says_directory = true;
    assert_eq!(decide(&ctx), Verdict::Conflict);
}

#[test]
fn a_file_this_package_owned_may_become_a_directory() {
    let mut ctx = context(Existing::Other);
    ctx.package_says_directory = true;
    ctx.old_version_owns_file = true;
    let verdict = decide(&ctx);
    assert_eq!(verdict, Verdict::Resolved(Resolution::FileBecomesDirectory));
    assert!(verdict.skips_directory_contents());
}

#[test]
fn the_file_becomes_directory_rule_needs_the_package_to_ship_a_directory() {
    let mut ctx = context(Existing::Other);
    ctx.old_version_owns_file = true;
    assert_eq!(decide(&ctx), Verdict::Conflict);
}

#[test]
fn a_path_this_transaction_removes_is_not_a_conflict() {
    let mut ctx = context(Existing::Other);
    ctx.owned_by_removal = true;
    assert_eq!(decide(&ctx), Verdict::Resolved(Resolution::RemovedByTransaction));
}

#[test]
fn a_file_changing_hands_records_who_had_it() {
    let mut ctx = context(Existing::Other);
    ctx.changing_owner_from = Some("oldpkg");
    let verdict = decide(&ctx);
    assert_eq!(
        verdict,
        Verdict::Resolved(Resolution::ChangesOwner { from: "oldpkg".to_owned() })
    );
    assert_eq!(verdict.changes_owner_from(), Some("oldpkg"));
}

#[test]
fn a_directory_left_empty_by_the_transaction_is_not_a_conflict() {
    let mut ctx = context(Existing::Directory);
    ctx.directory_emptied_by_transaction = true;
    assert_eq!(decide(&ctx), Verdict::Resolved(Resolution::DirectoryEmptiedByTransaction));
}

#[test]
fn an_unowned_backup_file_is_adopted() {
    let mut ctx = context(Existing::Other);
    ctx.new_is_backup = true;
    assert_eq!(decide(&ctx), Verdict::Resolved(Resolution::AdoptedBackupFile));
}

#[test]
fn a_backup_file_owned_by_another_package_is_still_a_conflict() {
    let mut ctx = context(Existing::Other);
    ctx.new_is_backup = true;
    ctx.owned_by_anyone = true;
    assert_eq!(decide(&ctx), Verdict::Conflict);
}

#[test]
fn overwrite_releases_a_file() {
    let mut ctx = context(Existing::Other);
    ctx.overwrite = true;
    assert_eq!(decide(&ctx), Verdict::Resolved(Resolution::Overwritten));
}

#[test]
fn overwrite_does_not_release_a_directory() {
    let mut ctx = context(Existing::Directory);
    ctx.overwrite = true;
    assert_eq!(decide(&ctx), Verdict::Conflict);
}

#[test]
fn removal_is_reported_before_a_change_of_owner() {
    let mut ctx = context(Existing::Other);
    ctx.owned_by_removal = true;
    ctx.changing_owner_from = Some("oldpkg");
    let verdict = decide(&ctx);
    assert_eq!(verdict, Verdict::Resolved(Resolution::RemovedByTransaction));
    assert_eq!(verdict.changes_owner_from(), None);
}

#[test]
fn only_three_resolutions_skip_a_directorys_contents() {
    let skipping = [
        Resolution::FileBecomesDirectory,
        Resolution::RemovedByTransaction,
        Resolution::ChangesOwner { from: "x".to_owned() },
    ];
    let not_skipping = [
        Resolution::NotPresent,
        Resolution::DirectoryAlreadyThere,
        Resolution::DirectoryEmptiedByTransaction,
        Resolution::AdoptedBackupFile,
        Resolution::Overwritten,
    ];
    for resolution in skipping {
        assert!(
            Verdict::Resolved(resolution.clone()).skips_directory_contents(),
            "{resolution:?}"
        );
    }
    for resolution in not_skipping {
        assert!(
            !Verdict::Resolved(resolution.clone()).skips_directory_contents(),
            "{resolution:?}"
        );
    }
    assert!(!Verdict::Conflict.skips_directory_contents());
}
