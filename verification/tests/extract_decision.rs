//! What becomes of an archive entry.

use piko_txn::extract::decision::{
    decide, resolve_backup, BackupAction, Disposition, EntryContext, EntryKind, Existing,
    PacnewReason, RefuseReason, SkipReason,
};

fn context(entry: EntryKind, existing: Existing) -> EntryContext<'static> {
    EntryContext {
        entry,
        existing,
        in_file_list: true,
        no_extract: false,
        no_upgrade: false,
        old_backup_hash: None,
        new_is_backup: false,
    }
}

#[test]
fn case_1_and_2_extract_into_empty_space() {
    for entry in [EntryKind::Other, EntryKind::Directory] {
        assert_eq!(decide(&context(entry, Existing::Absent)), Disposition::Extract);
    }
}

#[test]
fn case_3_overwrites_an_ordinary_file() {
    assert_eq!(decide(&context(EntryKind::Other, Existing::Other)), Disposition::Extract);
}

#[test]
fn case_4_lets_a_directory_replace_a_file() {
    assert_eq!(decide(&context(EntryKind::Directory, Existing::Other)), Disposition::Extract);
}

#[test]
fn case_5_refuses_to_replace_a_directory_with_a_file() {
    assert_eq!(
        decide(&context(EntryKind::Other, Existing::Directory)),
        Disposition::Refuse(RefuseReason::DirectoryInTheWay)
    );
}

#[test]
fn case_6_skips_an_existing_directory() {
    assert_eq!(
        decide(&context(EntryKind::Directory, Existing::Directory)),
        Disposition::Skip(SkipReason::DirectoryExists)
    );
}

#[test]
fn a_symlink_to_a_directory_is_overwritten_not_refused() {
    assert_eq!(decide(&context(EntryKind::Other, Existing::Other)), Disposition::Extract);
}

#[test]
fn no_extract_wins_over_every_case() {
    for existing in [Existing::Absent, Existing::Directory, Existing::Other] {
        for entry in [EntryKind::Other, EntryKind::Directory] {
            let mut ctx = context(entry, existing);
            ctx.no_extract = true;
            assert_eq!(
                decide(&ctx),
                Disposition::Skip(SkipReason::NoExtract),
                "{entry:?} over {existing:?}"
            );
        }
    }
}

#[test]
fn an_entry_missing_from_the_file_list_is_skipped_before_anything_else() {
    let mut ctx = context(EntryKind::Other, Existing::Directory);
    ctx.in_file_list = false;
    assert_eq!(decide(&ctx), Disposition::Skip(SkipReason::NotInFileList));
}

#[test]
fn no_upgrade_diverts_to_pacnew() {
    let mut ctx = context(EntryKind::Other, Existing::Other);
    ctx.no_upgrade = true;
    assert_eq!(decide(&ctx), Disposition::ExtractAsPacnew(PacnewReason::NoUpgrade));
}

#[test]
fn no_upgrade_wins_over_backup() {
    let mut ctx = context(EntryKind::Other, Existing::Other);
    ctx.no_upgrade = true;
    ctx.old_backup_hash = Some("abc");
    ctx.new_is_backup = true;
    assert_eq!(decide(&ctx), Disposition::ExtractAsPacnew(PacnewReason::NoUpgrade));
}

#[test]
fn a_backup_file_carries_the_old_packages_hash() {
    let mut ctx = context(EntryKind::Other, Existing::Other);
    ctx.old_backup_hash = Some("abc");
    assert_eq!(
        decide(&ctx),
        Disposition::ExtractAsPacnew(PacnewReason::Backup {
            original_hash: Some("abc".to_owned())
        })
    );
}

#[test]
fn a_newly_declared_backup_file_has_no_original() {
    let mut ctx = context(EntryKind::Other, Existing::Other);
    ctx.new_is_backup = true;
    assert_eq!(
        decide(&ctx),
        Disposition::ExtractAsPacnew(PacnewReason::Backup { original_hash: None })
    );
}

#[test]
fn backup_rules_do_not_apply_when_nothing_is_installed() {
    let mut ctx = context(EntryKind::Other, Existing::Absent);
    ctx.old_backup_hash = Some("abc");
    ctx.new_is_backup = true;
    assert_eq!(decide(&ctx), Disposition::Extract);
}

#[test]
fn backup_installs_when_the_user_already_has_the_new_content() {
    assert_eq!(
        resolve_backup(Some("new"), Some("new"), Some("old"), true),
        BackupAction::InstallNew
    );
}

#[test]
fn backup_keeps_the_users_file_when_the_package_did_not_change_it() {
    assert_eq!(
        resolve_backup(Some("edited"), Some("same"), Some("same"), true),
        BackupAction::KeepExisting { remove_pacnew: true }
    );
}

#[test]
fn backup_does_not_remove_a_pacnew_it_did_not_create() {
    assert_eq!(
        resolve_backup(Some("edited"), Some("same"), Some("same"), false),
        BackupAction::KeepExisting { remove_pacnew: false }
    );
}

#[test]
fn backup_upgrades_a_file_the_user_never_touched() {
    assert_eq!(
        resolve_backup(Some("old"), Some("new"), Some("old"), true),
        BackupAction::InstallNew
    );
}

#[test]
fn backup_keeps_both_when_all_three_differ() {
    assert_eq!(
        resolve_backup(Some("edited"), Some("new"), Some("old"), true),
        BackupAction::KeepBoth
    );
}

#[test]
fn backup_without_an_original_only_installs_on_an_exact_match() {
    assert_eq!(
        resolve_backup(Some("same"), Some("same"), None, true),
        BackupAction::InstallNew
    );
    assert_eq!(resolve_backup(Some("edited"), Some("new"), None, true), BackupAction::KeepBoth);
}

#[test]
fn backup_with_no_local_hash_keeps_both() {
    assert_eq!(resolve_backup(None, Some("new"), Some("old"), true), BackupAction::KeepBoth);
}

#[test]
fn backup_treats_missing_hashes_as_unknown_not_as_equal() {
    assert_eq!(resolve_backup(None, None, None, true), BackupAction::KeepBoth);
    assert_eq!(resolve_backup(None, None, Some("old"), true), BackupAction::KeepBoth);
    assert_eq!(resolve_backup(Some("local"), None, None, true), BackupAction::KeepBoth);
}

#[test]
fn the_comparison_order_matches_libalpm_when_all_three_agree() {
    assert_eq!(
        resolve_backup(Some("same"), Some("same"), Some("same"), true),
        BackupAction::InstallNew
    );
}
