//! Resolving a backup file.

use piko_txn::extract::backup::{resolve, BackupOutcome, Hashed, Resolution};
use piko_txn::extract::BackupAction;
use piko_txn::hash::{file_md5, MAX_BACKUP_BYTES};

fn md5(text: &str) -> String {
    file_md5("f", text.as_bytes(), MAX_BACKUP_BYTES).unwrap()
}

fn hashed(contents: Option<&str>) -> Hashed {
    match contents {
        Some(contents) => Hashed::Known(md5(contents)),
        None => Hashed::Missing,
    }
}

fn scenario(
    local: Option<&str>,
    packaged: Option<&str>,
    original: Option<&str>,
    is_new: bool,
) -> Resolution {
    let original = original.map(md5);
    resolve("conf", hashed(local), hashed(packaged), original.as_deref(), is_new)
}

#[test]
fn installs_when_the_user_already_has_the_packaged_content() {
    let resolution = scenario(Some("same"), Some("same"), Some("old"), true);
    assert_eq!(resolution.outcome, BackupOutcome::InstalledNew);
    assert_eq!(resolution.action, BackupAction::InstallNew);
}

#[test]
fn keeps_the_users_file_when_the_package_did_not_change_it() {
    let resolution = scenario(Some("edited"), Some("shipped"), Some("shipped"), true);
    assert_eq!(resolution.outcome, BackupOutcome::KeptExisting { pacnew_removed: true });
}

#[test]
fn does_not_remove_a_pacnew_it_did_not_create() {
    let resolution = scenario(Some("edited"), Some("shipped"), Some("shipped"), false);
    assert_eq!(resolution.outcome, BackupOutcome::KeptExisting { pacnew_removed: false });
}

#[test]
fn upgrades_a_file_the_user_never_touched() {
    let resolution = scenario(Some("original"), Some("new"), Some("original"), true);
    assert_eq!(resolution.outcome, BackupOutcome::InstalledNew);
}

#[test]
fn keeps_both_when_the_user_and_the_package_both_changed_it() {
    let resolution = scenario(Some("edited"), Some("new"), Some("original"), true);
    assert_eq!(
        resolution.outcome,
        BackupOutcome::KeptBoth { pacnew: "conf.pacnew".to_owned() }
    );
}

#[test]
fn records_the_packaged_hash_even_when_keeping_the_users_file() {
    let resolution = scenario(Some("edited"), Some("new"), Some("original"), true);
    assert!(matches!(resolution.outcome, BackupOutcome::KeptBoth { .. }));
    assert_eq!(resolution.recorded_hash.unwrap(), md5("new"));
}

#[test]
fn a_newly_declared_backup_file_keeps_both_unless_identical() {
    let resolution = scenario(Some("edited"), Some("new"), None, true);
    assert!(matches!(resolution.outcome, BackupOutcome::KeptBoth { .. }));

    let resolution = scenario(Some("same"), Some("same"), None, true);
    assert_eq!(resolution.outcome, BackupOutcome::InstalledNew);
}

#[test]
fn a_missing_local_file_keeps_both() {
    let resolution = scenario(None, Some("new"), Some("original"), true);
    assert!(matches!(resolution.outcome, BackupOutcome::KeptBoth { .. }));
    assert!(!resolution.unreadable, "absence is not unreadability");
}

#[test]
fn an_unreadable_local_file_is_reported_and_keeps_both() {
    let original = md5("original");
    let resolution =
        resolve("conf", Hashed::Unreadable, hashed(Some("new")), Some(&original), true);
    assert!(matches!(resolution.outcome, BackupOutcome::KeptBoth { .. }));
    assert!(resolution.unreadable, "an unreadable file was not reported");
}
