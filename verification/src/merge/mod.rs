//! Pending configuration files: `.pacnew` and `.pacsave` copies that wait to be merged.
//!
//! [`scan`] finds them, [`base`] looks for the version a three-way merge starts from, [`program`]
//! builds the commands that show and merge them, and [`action`] carries the user's answer out.

pub mod action;
pub mod base;
pub mod program;
pub mod scan;

use vstd::prelude::*;
use vstd::string::*;

use crate::text;

pub use action::{pacname, Action, Outcome};
pub use base::{BaseCandidate, BaseLimits};
pub use program::{
    parse_program, review_diff, three_way_diff, three_way_merge, two_way_diff, Invocation,
    DEFAULT_DIFFPROG, DEFAULT_MERGEPROG,
};
pub use scan::{scan, Scan, ScanLimits};

verus! {

/// What a packaged version that was not put in place is called.
pub const PACNEW_SUFFIX: &'static str = ".pacnew";

/// What a file that was kept on removal is called.
pub const PACSAVE_SUFFIX: &'static str = ".pacsave";

/// What kind of copy is waiting.
#[derive(Clone, Copy, Debug, Eq, PartialEq, Structural)]
pub enum PendingKind {
    /// `<target>.pacnew`.
    Pacnew,
    /// `<target>.pacsave`.
    Pacsave,
    /// `<target>.pacsave.N`, an older one that was rotated away.
    NumberedPacsave(u32),
}

impl PendingKind {
    /// The suffix after the target's name.
    pub open spec fn spec_suffix(self) -> Seq<char> {
        match self {
            PendingKind::Pacnew => PACNEW_SUFFIX@,
            PendingKind::Pacsave => PACSAVE_SUFFIX@,
            PendingKind::NumberedPacsave(number) => PACSAVE_SUFFIX@ + "."@ + text::dec(
                number as nat,
            ),
        }
    }

    /// The suffix after the target's name.
    pub fn suffix(self) -> (r: String)
        ensures
            r@ == self.spec_suffix(),
    {
        match self {
            PendingKind::Pacnew => PACNEW_SUFFIX.to_owned(),
            PendingKind::Pacsave => PACSAVE_SUFFIX.to_owned(),
            PendingKind::NumberedPacsave(number) => {
                let mut out = PACSAVE_SUFFIX.to_owned();
                out.push_str(".");
                text::push_decimal(&mut out, number as u64);
                out
            },
        }
    }

    /// The suffix without its leading dot.
    pub fn label(self) -> (r: String)
        ensures
            r@ == self.spec_suffix().skip(1),
    {
        let suffix = self.suffix();
        proof {
            reveal_strlit(".pacnew");
            reveal_strlit(".pacsave");
        }
        let n = suffix.as_str().unicode_len();
        suffix.as_str().substring_char(1, n).to_owned()
    }

    /// Whether a merge makes sense. A numbered copy is history.
    pub fn is_mergeable(self) -> (r: bool)
        ensures
            r == !(self is NumberedPacsave),
    {
        match self {
            PendingKind::NumberedPacsave(_) => false,
            _ => true,
        }
    }
}

/// How a pending file compares with its target.
#[derive(Clone, Copy, Debug, Eq, PartialEq, Structural)]
pub enum Verdict {
    /// The target is not there.
    TargetMissing,
    /// The two hold the same bytes.
    Identical,
    /// They do not.
    Differs,
    /// They could not be compared.
    Unreadable,
}

/// One pending file.
#[derive(Clone, Debug, Eq, PartialEq)]
pub struct Pending {
    /// The copy.
    pub pacfile: String,
    /// The file it is a copy of.
    pub target: String,
    /// What kind of copy it is.
    pub kind: PendingKind,
    /// The package that declares the target.
    pub package: String,
    /// The version of it that is installed.
    pub installed_version: String,
    /// How the two compare.
    pub verdict: Verdict,
}

/// What a [`Pending`] holds.
pub struct PendingView {
    /// The copy.
    pub pacfile: Seq<char>,
    /// The file it is a copy of.
    pub target: Seq<char>,
    /// What kind of copy it is.
    pub kind: PendingKind,
    /// The package that declares the target.
    pub package: Seq<char>,
    /// The version of it that is installed.
    pub installed_version: Seq<char>,
    /// How the two compare.
    pub verdict: Verdict,
}

impl View for Pending {
    type V = PendingView;

    open spec fn view(&self) -> PendingView {
        PendingView {
            pacfile: self.pacfile@,
            target: self.target@,
            kind: self.kind,
            package: self.package@,
            installed_version: self.installed_version@,
            verdict: self.verdict,
        }
    }
}

/// Something a scan could not look at.
#[derive(Clone, Debug, Eq, PartialEq)]
pub enum Problem {
    /// A package's backup list cannot be read.
    UnreadableEntry {
        /// The package's entry.
        package: String,
        /// Why not.
        reason: String,
    },
    /// A pending file cannot be compared with its target.
    Uncomparable {
        /// The pending file.
        path: String,
        /// Why not.
        reason: String,
    },
    /// A declared path leads out of the root.
    OutsideRoot {
        /// The path.
        path: String,
        /// How.
        reason: String,
    },
    /// A directory cannot be listed.
    UnlistableDirectory {
        /// The directory.
        path: String,
        /// Why not.
        reason: String,
    },
    /// A numbered copy's number does not read back as it is written.
    UnusableNumber {
        /// The copy.
        path: String,
    },
}

/// What a [`Problem`] holds.
pub enum ProblemView {
    /// [`Problem::UnreadableEntry`].
    UnreadableEntry {
        /// The package's entry.
        package: Seq<char>,
        /// Why not.
        reason: Seq<char>,
    },
    /// [`Problem::Uncomparable`].
    Uncomparable {
        /// The pending file.
        path: Seq<char>,
        /// Why not.
        reason: Seq<char>,
    },
    /// [`Problem::OutsideRoot`].
    OutsideRoot {
        /// The path.
        path: Seq<char>,
        /// How.
        reason: Seq<char>,
    },
    /// [`Problem::UnlistableDirectory`].
    UnlistableDirectory {
        /// The directory.
        path: Seq<char>,
        /// Why not.
        reason: Seq<char>,
    },
    /// [`Problem::UnusableNumber`].
    UnusableNumber {
        /// The copy.
        path: Seq<char>,
    },
}

impl View for Problem {
    type V = ProblemView;

    open spec fn view(&self) -> ProblemView {
        match self {
            Problem::UnreadableEntry { package, reason } => ProblemView::UnreadableEntry {
                package: package@,
                reason: reason@,
            },
            Problem::Uncomparable { path, reason } => ProblemView::Uncomparable {
                path: path@,
                reason: reason@,
            },
            Problem::OutsideRoot { path, reason } => ProblemView::OutsideRoot {
                path: path@,
                reason: reason@,
            },
            Problem::UnlistableDirectory { path, reason } => ProblemView::UnlistableDirectory {
                path: path@,
                reason: reason@,
            },
            Problem::UnusableNumber { path } => ProblemView::UnusableNumber { path: path@ },
        }
    }
}

impl ProblemView {
    /// The words for the problem.
    pub open spec fn words(self) -> Seq<char> {
        match self {
            ProblemView::UnreadableEntry { package, reason } => package
                + "'s backup list cannot be read: "@ + reason,
            ProblemView::Uncomparable { path, reason } => path + " cannot be compared: "@ + reason,
            ProblemView::OutsideRoot { path, reason } => path
                + " cannot be resolved inside the root: "@ + reason,
            ProblemView::UnlistableDirectory { path, reason } => path + " cannot be listed: "@
                + reason,
            ProblemView::UnusableNumber { path } => path
                + " does not carry a usable .pacsave number"@,
        }
    }
}

/// Two texts with words between them.
fn phrase(subject: &String, between: &str, reason: &String) -> (r: String)
    ensures
        r@ == subject@ + between@ + reason@,
{
    let mut out = subject.clone();
    out.push_str(between);
    out.push_str(reason.as_str());
    out
}

impl Problem {
    /// The words for the problem.
    pub fn message(&self) -> (r: String)
        ensures
            r@ == self@.words(),
    {
        match self {
            Problem::UnreadableEntry { package, reason } => phrase(
                package,
                "'s backup list cannot be read: ",
                reason,
            ),
            Problem::Uncomparable { path, reason } => phrase(
                path,
                " cannot be compared: ",
                reason,
            ),
            Problem::OutsideRoot { path, reason } => phrase(
                path,
                " cannot be resolved inside the root: ",
                reason,
            ),
            Problem::UnlistableDirectory { path, reason } => phrase(
                path,
                " cannot be listed: ",
                reason,
            ),
            Problem::UnusableNumber { path } => {
                let mut out = path.clone();
                out.push_str(" does not carry a usable .pacsave number");
                out
            },
        }
    }
}

} // verus!
