//! What happens while a transaction is verified and carried out, as it is reported to a caller.

use vstd::prelude::*;

use crate::exec::Outcome;
use crate::hook::Run;
use crate::install::Extraction;
use crate::package::EntryName;
use crate::plan::Step;

verus! {

/// Which function of a package's `.INSTALL` scriptlet runs.
#[derive(Clone, Copy, Debug, Eq, PartialEq, Structural)]
pub enum ScriptletKind {
    /// `pre_install`.
    PreInstall,
    /// `post_install`.
    PostInstall,
    /// `pre_upgrade`.
    PreUpgrade,
    /// `post_upgrade`.
    PostUpgrade,
    /// `pre_remove`.
    PreRemove,
    /// `post_remove`.
    PostRemove,
}

/// One thing happening while a transaction is carried out.
#[derive(Clone, Copy, Debug)]
pub enum Event<'a> {
    /// Step `index` of `total` is starting.
    StepStarted {
        /// 0-based position in the plan.
        index: usize,
        /// The plan's total step count.
        total: usize,
        /// What the step will do.
        step: &'a Step,
        /// The entry that an install step will replace, if any.
        replaces: Option<&'a EntryName>,
    },
    /// The step most recently started completed without error, and that is durably recorded. A
    /// step that fails has no such event.
    StepFinished {
        /// The step that just finished.
        step: &'a Step,
        /// What actually happened.
        outcome: StepOutcome<'a>,
    },
    /// A hook phase found at least one triggered hook and is about to run it. It never fires when
    /// nothing triggered.
    HooksStarted {
        /// How many hooks triggered for this phase.
        total: usize,
    },
    /// One hook of the phase is about to run.
    HookStarted {
        /// 0-based position among this phase's triggered hooks.
        index: usize,
        /// How many hooks triggered for this phase.
        total: usize,
        /// The hook's file name.
        name: &'a str,
        /// Its `Description`, if it had one.
        description: Option<&'a str>,
    },
    /// One line of the running hook's output, as it was produced.
    HookOutputLine {
        /// 0-based position among this phase's triggered hooks.
        index: usize,
        /// How many hooks triggered for this phase.
        total: usize,
        /// The line, without its trailing newline.
        line: &'a str,
    },
    /// One hook of the phase finished running.
    HookFinished {
        /// 0-based position among this phase's triggered hooks.
        index: usize,
        /// How many hooks triggered for this phase.
        total: usize,
        /// What it did.
        run: &'a Run,
    },
    /// A function of a package's scriptlet is about to run. It fires only for functions that the
    /// scriptlet declares.
    ScriptletStarted {
        /// The package whose scriptlet this is.
        package: &'a str,
        /// Which of the six functions.
        kind: ScriptletKind,
    },
    /// One line of the running scriptlet's output, as it was produced.
    ScriptletOutputLine {
        /// The package whose scriptlet this is.
        package: &'a str,
        /// Which of the six functions.
        kind: ScriptletKind,
        /// The line, without its trailing newline.
        line: &'a str,
    },
    /// The scriptlet function most recently started finished running.
    ScriptletFinished {
        /// The package whose scriptlet this is.
        package: &'a str,
        /// Which of the six functions.
        kind: ScriptletKind,
        /// What it did.
        outcome: &'a Outcome,
    },
}

/// What one finished step did: only what the step itself does not already say.
#[derive(Clone, Copy, Debug)]
pub enum StepOutcome<'a> {
    /// An install step finished.
    Installed {
        /// The entry it was recorded under.
        entry: &'a EntryName,
        /// The entry it replaced, if a version of this package was already installed.
        replaced: Option<&'a EntryName>,
        /// What extraction did.
        extraction: &'a Extraction,
        /// `.pacsave` files this step created, if any.
        pacsaves: &'a Vec<String>,
    },
    /// A removal step finished.
    Removed {
        /// `.pacsave` files this step created, if any.
        pacsaves: &'a Vec<String>,
    },
}

/// One thing happening while every package a plan needs is located, verified and read.
#[derive(Clone, Copy, Debug, Eq, PartialEq, Structural)]
pub enum VerifyEvent {
    /// One install candidate has been located and had its signature checked. Its archive has not
    /// been opened yet.
    SignatureChecked {
        /// How many install candidates have had their signature checked, this one included.
        index: usize,
        /// The plan's total install-candidate count.
        total: usize,
    },
    /// One install candidate has also had its archive opened and parsed.
    PackageVerified {
        /// How many install candidates have been verified, this one included.
        index: usize,
        /// The plan's total install-candidate count.
        total: usize,
    },
    /// Every candidate has been verified, and the file-conflict check is about to run.
    ConflictCheckStarted,
}

} // verus!
