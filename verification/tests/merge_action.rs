//! Carrying out the answer to a pending file.

use piko_txn::merge::action::{apply, pacname, remove_if_identical, Action, Outcome, Step};
use piko_txn::merge::{Pending, PendingKind, Verdict};

fn pending() -> Pending {
    Pending {
        pacfile: "etc/foo.conf.pacnew".to_owned(),
        target: "etc/foo.conf".to_owned(),
        kind: PendingKind::Pacnew,
        package: "foo".to_owned(),
        installed_version: "1.0.0-1".to_owned(),
        verdict: Verdict::Differs,
    }
}

#[test]
fn skip_touches_nothing() {
    let plan = apply(&pending(), Action::Skip).unwrap();
    assert_eq!(plan.outcome, Outcome::Skipped);
    assert!(plan.steps.is_empty());
}

#[test]
fn remove_deletes_only_the_pending_file() {
    let plan = apply(&pending(), Action::Remove).unwrap();
    assert!(matches!(plan.outcome, Outcome::Removed { .. }), "got {:?}", plan.outcome);
    assert_eq!(plan.steps.len(), 1);
    assert!(matches!(&plan.steps[0], Step::Unlink { name } if name == "foo.conf.pacnew"));
}

#[test]
fn overwrite_moves_the_pending_file_into_place() {
    let plan = apply(&pending(), Action::Overwrite).unwrap();
    assert!(matches!(plan.outcome, Outcome::Overwritten { .. }), "got {:?}", plan.outcome);
    assert_eq!(plan.steps.len(), 1);
    assert!(matches!(&plan.steps[0], Step::Rename { from, to }
        if from == "foo.conf.pacnew" && to == "foo.conf"));
}

#[test]
fn use_merged_rewrites_the_target_in_place() {
    let plan = apply(&pending(), Action::UseMerged { contents: b"merged".to_vec() }).unwrap();
    assert!(matches!(plan.outcome, Outcome::Merged { .. }), "got {:?}", plan.outcome);
    assert_eq!(plan.steps.len(), 2);
    assert!(matches!(&plan.steps[0], Step::Write { name, contents }
        if name == "foo.conf" && contents == b"merged"));
    assert!(matches!(&plan.steps[1], Step::Unlink { name } if name == "foo.conf.pacnew"));
}

#[test]
fn removes_a_pending_file_that_still_matches() {
    let plan = remove_if_identical(&pending(), Some(true)).unwrap();
    assert!(matches!(plan.outcome, Outcome::Removed { .. }), "got {:?}", plan.outcome);
    assert_eq!(plan.steps.len(), 1);
}

#[test]
fn keeps_a_pending_file_that_changed_since_the_scan() {
    let plan = remove_if_identical(&pending(), Some(false)).unwrap();
    assert_eq!(plan.outcome, Outcome::Skipped);
    assert!(plan.steps.is_empty());
}

#[test]
fn keeps_a_pending_file_whose_target_is_gone() {
    let plan = remove_if_identical(&pending(), None).unwrap();
    assert_eq!(plan.outcome, Outcome::Skipped);
    assert!(plan.steps.is_empty());
}

#[test]
fn a_target_that_names_no_file_is_refused() {
    let nameless = Pending { target: "etc/..".to_owned(), ..pending() };
    assert!(apply(&nameless, Action::Remove).is_err());
    assert!(apply(&nameless, Action::Overwrite).is_err());
    assert!(apply(&nameless, Action::Skip).is_ok());
    assert!(remove_if_identical(&nameless, Some(true)).is_err());
    assert_eq!(
        pacname(&nameless).unwrap_err().message(),
        "etc/.. is not a safe path to extract: it is empty"
    );
}

#[test]
fn a_kind_says_its_suffix_and_its_label() {
    assert_eq!(PendingKind::Pacnew.suffix(), ".pacnew");
    assert_eq!(PendingKind::Pacsave.label(), "pacsave");
    assert_eq!(PendingKind::NumberedPacsave(3).suffix(), ".pacsave.3");
    assert_eq!(PendingKind::NumberedPacsave(3).label(), "pacsave.3");
    assert!(PendingKind::Pacnew.is_mergeable());
    assert!(PendingKind::Pacsave.is_mergeable());
    assert!(!PendingKind::NumberedPacsave(1).is_mergeable());
}
