//! Carrying out the user's answer to a pending file.
//!
//! Each answer is a short list of steps on names inside the target's directory. Steps are carried
//! out in order and the first failure ends them, so a merge that could not be written never
//! removes the pending file.

use vstd::prelude::*;

use super::{Pending, PendingView};
use crate::error::Error;
use crate::paths;
use crate::text;

verus! {

/// The user's answer.
#[derive(Clone, Debug)]
pub enum Action {
    /// Leave both files.
    Skip,
    /// Remove the pending file.
    Remove,
    /// Put the pending file in the target's place.
    Overwrite,
    /// Write a merge into the target, and remove the pending file.
    UseMerged {
        /// The merge.
        contents: Vec<u8>,
    },
}

/// What was done.
#[derive(Clone, Debug, Eq, PartialEq)]
pub enum Outcome {
    /// Nothing.
    Skipped,
    /// The pending file was removed.
    Removed {
        /// The pending file.
        pacfile: String,
    },
    /// The pending file took the target's place.
    Overwritten {
        /// The target.
        target: String,
        /// The pending file.
        pacfile: String,
    },
    /// The merge was written, and the pending file removed.
    Merged {
        /// The target.
        target: String,
        /// The pending file.
        pacfile: String,
    },
}

/// One change to the directory that holds the target and the pending file.
#[derive(Clone, Debug)]
pub enum Step {
    /// Replace the contents of the target, which must be a regular file, and flush them to disk.
    Write {
        /// The target's name.
        name: String,
        /// What it is to hold.
        contents: Vec<u8>,
    },
    /// Remove a name.
    Unlink {
        /// The name.
        name: String,
    },
    /// Rename one name onto another.
    Rename {
        /// The name that goes.
        from: String,
        /// The name that is replaced.
        to: String,
    },
}

/// What a [`Step`] holds.
pub enum StepView {
    /// [`Step::Write`].
    Write {
        /// The target's name.
        name: Seq<char>,
        /// What it is to hold.
        contents: Seq<u8>,
    },
    /// [`Step::Unlink`].
    Unlink {
        /// The name.
        name: Seq<char>,
    },
    /// [`Step::Rename`].
    Rename {
        /// The name that goes.
        from: Seq<char>,
        /// The name that is replaced.
        to: Seq<char>,
    },
}

impl View for Step {
    type V = StepView;

    open spec fn view(&self) -> StepView {
        match self {
            Step::Write { name, contents } => StepView::Write { name: name@, contents: contents@ },
            Step::Unlink { name } => StepView::Unlink { name: name@ },
            Step::Rename { from, to } => StepView::Rename { from: from@, to: to@ },
        }
    }
}

/// The views of a list of steps.
pub open spec fn step_views(list: Seq<Step>) -> Seq<StepView> {
    Seq::new(list.len(), |i: int| list[i]@)
}

/// What carrying out an answer takes, and what is done then.
#[derive(Debug)]
pub struct Plan {
    /// The steps, in order.
    pub steps: Vec<Step>,
    /// What is done once all of them succeeded.
    pub outcome: Outcome,
}

/// The name of the pending file inside the target's directory.
pub open spec fn spec_pacname(pending: PendingView) -> Option<Seq<char>> {
    match paths::spec_file_name(pending.target) {
        Some(name) => Some(name + pending.kind.spec_suffix()),
        None => None,
    }
}

/// The error for a target that names no file.
pub open spec fn is_nameless(error: Error, target: Seq<char>) -> bool {
    error matches Error::UnsafeArchivePath { path, reason } && path@ == target && reason@
        == "it is empty"@
}

/// The name of the pending file inside the target's directory.
pub fn pacname(pending: &Pending) -> (r: Result<String, Error>)
    ensures
        match r {
            Ok(name) => spec_pacname(pending@) == Some(name@),
            Err(error) => spec_pacname(pending@) is None && is_nameless(error, pending@.target),
        },
{
    let all = text::chars(pending.target.as_str());
    match paths::file_name(all.as_slice()) {
        Some(name) => {
            let mut out = text::text(name);
            out.push_str(pending.kind.suffix().as_str());
            Ok(out)
        },
        None => Err(
            Error::UnsafeArchivePath {
                path: pending.target.clone(),
                reason: "it is empty".to_owned(),
            },
        ),
    }
}

/// The steps that an answer takes.
pub open spec fn steps_of(pending: PendingView, action: Action) -> Seq<StepView> {
    let name = paths::spec_file_name(pending.target)->0;
    let pacname = spec_pacname(pending)->0;
    match action {
        Action::Skip => Seq::empty(),
        Action::Remove => seq![StepView::Unlink { name: pacname }],
        Action::Overwrite => seq![StepView::Rename { from: pacname, to: name }],
        Action::UseMerged { contents } => seq![
            StepView::Write { name, contents: contents@ },
            StepView::Unlink { name: pacname },
        ],
    }
}

/// What an answer comes to.
pub open spec fn is_outcome(outcome: Outcome, pending: PendingView, action: Action) -> bool {
    match action {
        Action::Skip => outcome is Skipped,
        Action::Remove => outcome matches Outcome::Removed { pacfile } && pacfile@
            == pending.pacfile,
        Action::Overwrite => outcome matches Outcome::Overwritten { target, pacfile } && target@
            == pending.target && pacfile@ == pending.pacfile,
        Action::UseMerged { .. } => outcome matches Outcome::Merged { target, pacfile } && target@
            == pending.target && pacfile@ == pending.pacfile,
    }
}

/// What carrying out `action` on `pending` takes.
pub fn apply(pending: &Pending, action: Action) -> (r: Result<Plan, Error>)
    ensures
        match r {
            Ok(plan) => {
                &&& action is Skip || spec_pacname(pending@) is Some
                &&& step_views(plan.steps@) == steps_of(pending@, action)
                &&& is_outcome(plan.outcome, pending@, action)
            },
            Err(error) => !(action is Skip) && spec_pacname(pending@) is None && is_nameless(
                error,
                pending@.target,
            ),
        },
{
    let mut steps: Vec<Step> = Vec::new();
    match action {
        Action::Skip => {
            assert(step_views(steps@) =~= Seq::<StepView>::empty());
            return Ok(Plan { steps, outcome: Outcome::Skipped });
        },
        _ => {},
    }
    let pac = match pacname(pending) {
        Ok(pac) => pac,
        Err(error) => {
            return Err(error);
        },
    };
    let all = text::chars(pending.target.as_str());
    let name = match paths::file_name(all.as_slice()) {
        Some(name) => text::text(name),
        None => String::new(),
    };
    let ghost expected = steps_of(pending@, action);
    let outcome = match action {
        Action::Skip => Outcome::Skipped,
        Action::Remove => {
            steps.push(Step::Unlink { name: pac });
            Outcome::Removed { pacfile: pending.pacfile.clone() }
        },
        Action::Overwrite => {
            steps.push(Step::Rename { from: pac, to: name });
            Outcome::Overwritten {
                target: pending.target.clone(),
                pacfile: pending.pacfile.clone(),
            }
        },
        Action::UseMerged { contents } => {
            steps.push(Step::Write { name, contents });
            steps.push(Step::Unlink { name: pac });
            Outcome::Merged { target: pending.target.clone(), pacfile: pending.pacfile.clone() }
        },
    };
    assert(step_views(steps@) =~= expected);
    Ok(Plan { steps, outcome })
}

/// What removing a redundant pending file takes, given what comparing it with its target said.
///
/// A pair that could not be compared, or of which one is missing, is never taken for identical.
pub fn remove_if_identical(pending: &Pending, same: Option<bool>) -> (r: Result<Plan, Error>)
    ensures
        match r {
            Ok(plan) => {
                let answer = if same == Some(true) {
                    Action::Remove
                } else {
                    Action::Skip
                };
                &&& spec_pacname(pending@) is Some
                &&& step_views(plan.steps@) == steps_of(pending@, answer)
                &&& is_outcome(plan.outcome, pending@, answer)
            },
            Err(error) => spec_pacname(pending@) is None && is_nameless(error, pending@.target),
        },
{
    match pacname(pending) {
        Ok(_) => {},
        Err(error) => {
            return Err(error);
        },
    }
    match same {
        Some(true) => apply(pending, Action::Remove),
        _ => apply(pending, Action::Skip),
    }
}

// ---------------------------------------------------------------------------------------------
// Laws

/// Only an answer that replaces or merges touches the target, and nothing touches a name other
/// than the target's and the pending file's.
pub proof fn an_answer_touches_its_own_pair(pending: PendingView, action: Action, i: int)
    requires
        spec_pacname(pending) is Some,
        0 <= i < steps_of(pending, action).len(),
    ensures
        match steps_of(pending, action)[i] {
            StepView::Write { name, .. } => action is UseMerged && Some(name)
                == paths::spec_file_name(pending.target),
            StepView::Unlink { name } => (action is Remove || action is UseMerged) && Some(name)
                == spec_pacname(pending),
            StepView::Rename { from, to } => action is Overwrite && Some(from) == spec_pacname(
                pending,
            ) && Some(to) == paths::spec_file_name(pending.target),
        },
{
}

/// A merge is written before the pending file goes.
pub proof fn a_merge_is_written_first(pending: PendingView, contents: Vec<u8>)
    requires
        spec_pacname(pending) is Some,
    ensures
        steps_of(pending, Action::UseMerged { contents }).len() == 2,
        steps_of(pending, Action::UseMerged { contents })[0] is Write,
        steps_of(pending, Action::UseMerged { contents })[1] is Unlink,
{
}

} // verus!
