//! Transaction hooks: `.hook` files that run a command before or after a transaction.
//!
//! [`parse`] turns a file into a value. [`trigger`] answers one question: does this transaction
//! set the hook off. This module orders the hooks of several directories, decides what running one
//! needs, and what its outcome means for the transaction.
//!
//! # Hook files come from the host; the command runs inside the root
//!
//! A hook file is trusted host configuration. The program it names is not necessarily present: a
//! hook whose command is missing inside the root reports that it could not be started instead of
//! failing the transaction.
//!
//! # Priority and overriding
//!
//! Directories are searched last to first. A hook file name already seen is skipped, so a later
//! directory wins. Hooks run in order of their file name, excluding the `.hook` suffix, across all
//! directories at once.

pub mod ini;
pub mod parse;
pub mod trigger;
pub mod wordsplit;

use vstd::prelude::*;
use vstd::string::*;

pub use parse::{Hook, HookView, ParseError, TriggerKind, When};
pub use trigger::Summary;

use crate::exec::{Command, CommandView, Outcome, StatusView};
use crate::order;
use crate::package::known_relation;
use crate::paths;
use crate::pattern::Answers;
use crate::table::TextSet;
use crate::text;

verus! {

broadcast use {crate::text::group_lists, vstd::seq_lib::group_to_multiset_ensures};

/// The suffix a hook file must have.
pub const HOOK_SUFFIX: &'static str = ".hook";

/// The built-in hook directory. `pacman.conf` never names it.
pub const SYSTEM_HOOK_DIR: &'static str = "/usr/share/libalpm/hooks";

/// Something that stopped one hook file being used.
#[derive(Clone, Debug)]
pub enum Problem {
    /// A hook directory could not be read. A missing directory is not a problem; it is skipped.
    UnreadableDirectory {
        /// The directory.
        path: String,
        /// Why it could not be read.
        reason: String,
    },
    /// A `.hook` file could not be read.
    UnreadableHook {
        /// The file.
        path: String,
        /// Why it could not be read.
        reason: String,
    },
    /// A `.hook` file did not parse.
    Invalid(ParseError),
}

/// What a [`Problem`] holds.
pub enum ProblemView {
    /// [`Problem::UnreadableDirectory`].
    UnreadableDirectory {
        /// The directory.
        path: Seq<char>,
        /// Why it could not be read.
        reason: Seq<char>,
    },
    /// [`Problem::UnreadableHook`].
    UnreadableHook {
        /// The file.
        path: Seq<char>,
        /// Why it could not be read.
        reason: Seq<char>,
    },
    /// [`Problem::Invalid`].
    Invalid {
        /// The hook file's name.
        file: Seq<char>,
        /// What was wrong with it.
        reason: Seq<char>,
    },
}

impl View for Problem {
    type V = ProblemView;

    open spec fn view(&self) -> ProblemView {
        match self {
            Problem::UnreadableDirectory { path, reason } => ProblemView::UnreadableDirectory {
                path: path@,
                reason: reason@,
            },
            Problem::UnreadableHook { path, reason } => ProblemView::UnreadableHook {
                path: path@,
                reason: reason@,
            },
            Problem::Invalid(error) => ProblemView::Invalid {
                file: error.file@,
                reason: error.reason@,
            },
        }
    }
}

/// The views of a list of problems.
pub open spec fn problem_views(list: Seq<Problem>) -> Seq<ProblemView> {
    Seq::new(list.len(), |i: int| list[i]@)
}

impl ProblemView {
    /// The words for the problem.
    pub open spec fn words(self) -> Seq<char> {
        match self {
            ProblemView::UnreadableDirectory { path, reason } =>
                "could not read the hook directory "@ + path + ": "@ + reason,
            ProblemView::UnreadableHook { path, reason } => "could not read the hook "@ + path
                + ": "@ + reason,
            ProblemView::Invalid { file, reason } => file + ": "@ + reason,
        }
    }
}

impl Problem {
    /// The words for the problem.
    pub fn message(&self) -> (r: String)
        ensures
            r@ == self@.words(),
    {
        match self {
            Problem::UnreadableDirectory { path, reason } => {
                let mut out = "could not read the hook directory ".to_owned();
                out.push_str(path.as_str());
                out.push_str(": ");
                out.push_str(reason.as_str());
                out
            },
            Problem::UnreadableHook { path, reason } => {
                let mut out = "could not read the hook ".to_owned();
                out.push_str(path.as_str());
                out.push_str(": ");
                out.push_str(reason.as_str());
                out
            },
            Problem::Invalid(error) => error.message(),
        }
    }
}

/// What reading one file of a hook directory gave.
#[derive(Clone, Debug)]
pub enum Contents {
    /// It is a directory.
    Directory,
    /// It is neither a directory nor a regular file, such as the `/dev/null` that masks a hook.
    Special,
    /// Its text.
    Text(String),
    /// It could not be read, and why.
    Unreadable(String),
}

/// One file of a hook directory.
#[derive(Clone, Debug)]
pub struct Found {
    /// The file's name.
    pub name: String,
    /// What reading it gave.
    pub contents: Contents,
}

/// What listing a hook directory gave.
#[derive(Clone, Debug)]
pub enum Listing {
    /// It is not there. That is ordinary.
    Missing,
    /// It could not be read, and why.
    Unreadable(String),
    /// Its files.
    Files(Vec<Found>),
}

/// One hook directory.
#[derive(Clone, Debug)]
pub struct Directory {
    /// Its path.
    pub path: String,
    /// What it holds.
    pub listing: Listing,
}

/// What one hook file comes to: a hook, nothing, or a problem.
pub open spec fn loaded(directory: Seq<char>, found: Found) -> Result<
    Option<HookView>,
    ProblemView,
> {
    match found.contents {
        Contents::Directory => Ok(None),
        Contents::Unreadable(reason) => Err(
            ProblemView::UnreadableHook {
                path: paths::joined(directory, found.name@),
                reason: reason@,
            },
        ),
        Contents::Special => parsed(found.name@, Seq::empty()),
        Contents::Text(contents) => parsed(found.name@, contents@),
    }
}

/// What a hook file's text comes to.
pub open spec fn parsed(name: Seq<char>, contents: Seq<char>) -> Result<
    Option<HookView>,
    ProblemView,
> {
    match parse::hook_of(name, contents) {
        Ok(hook) => Ok(Some(hook)),
        Err(reason) => Err(ProblemView::Invalid { file: name, reason }),
    }
}

/// The hooks and problems found so far.
#[verifier::ext_equal]
pub struct Gathered {
    /// The hooks, in the order they were found.
    pub hooks: Seq<HookView>,
    /// The problems.
    pub problems: Seq<ProblemView>,
    /// The names of the hook files that were seen, whatever came of them.
    pub seen: Seq<Seq<char>>,
}

/// What one more file adds. A directory is no hook file, whatever its name.
pub open spec fn after_file(so_far: Gathered, directory: Seq<char>, found: Found) -> Gathered {
    if !text::ends_with(found.name@, HOOK_SUFFIX@) || so_far.seen.contains(found.name@) {
        so_far
    } else {
        let seen = so_far.seen.push(found.name@);
        match loaded(directory, found) {
            Ok(Some(hook)) => Gathered { hooks: so_far.hooks.push(hook), seen, ..so_far },
            Ok(None) => so_far,
            Err(problem) => Gathered { problems: so_far.problems.push(problem), seen, ..so_far },
        }
    }
}

/// What the files of a directory add, in the order they are listed.
pub open spec fn after_files(so_far: Gathered, directory: Seq<char>, files: Seq<Found>) -> Gathered
    decreases files.len(),
{
    if files.len() == 0 {
        so_far
    } else {
        after_file(
            after_files(so_far, directory, files.drop_last()),
            directory,
            files.last(),
        )
    }
}

/// What one directory adds.
pub open spec fn after_directory(so_far: Gathered, directory: Directory) -> Gathered {
    match directory.listing {
        Listing::Missing => so_far,
        Listing::Unreadable(reason) => Gathered {
            problems: so_far.problems.push(
                ProblemView::UnreadableDirectory { path: directory.path@, reason: reason@ },
            ),
            ..so_far
        },
        Listing::Files(files) => after_files(so_far, directory.path@, files@),
    }
}

/// What the directories from `i` on hold: the last is searched first.
pub open spec fn gathered(directories: Seq<Directory>, i: int) -> Gathered
    decreases directories.len() - i,
{
    if i >= directories.len() {
        Gathered { hooks: Seq::empty(), problems: Seq::empty(), seen: Seq::empty() }
    } else {
        after_directory(gathered(directories, i + 1), directories[i])
    }
}

/// A hook file's name without its suffix.
pub open spec fn spec_stem(name: Seq<char>) -> Seq<char> {
    match text::strip_suffix(name, HOOK_SUFFIX@) {
        Some(stem) => stem,
        None => name,
    }
}

/// A hook file's name without its suffix.
pub fn stem(name: &str) -> (r: String)
    ensures
        r@ == spec_stem(name@),
{
    let all = text::chars(name);
    match text::before_text(all.as_slice(), HOOK_SUFFIX) {
        Some(stem) => text::text(stem),
        None => name.to_owned(),
    }
}

/// The views of a list of hooks.
pub open spec fn hook_views(list: Seq<Hook>) -> Seq<HookView> {
    Seq::new(list.len(), |i: int| list[i]@)
}

/// The hooks are in the order they run.
pub open spec fn in_order(hooks: Seq<HookView>) -> bool {
    forall|i: int, j: int|
        0 <= i < j < hooks.len() ==> text::text_le(
            spec_stem((#[trigger] hooks[i]).name),
            spec_stem((#[trigger] hooks[j]).name),
        )
}

impl order::Ordered for Hook {
    open spec fn precedes(self, other: Self) -> bool {
        text::text_lt(spec_stem(self.name@), spec_stem(other.name@))
    }

    proof fn asymmetric(a: Self, b: Self) {
        text::lemma_text_lt_total(spec_stem(a.name@), spec_stem(b.name@));
    }

    proof fn transitive(a: Self, b: Self, c: Self) {
        order::lemma_texts_chain(spec_stem(a.name@), spec_stem(b.name@), spec_stem(c.name@));
    }

    fn before(&self, other: &Self) -> (r: bool) {
        text::less(stem(self.name.as_str()).as_str(), stem(other.name.as_str()).as_str())
    }
}

impl order::Ordered for Found {
    open spec fn precedes(self, other: Self) -> bool {
        text::text_lt(self.name@, other.name@)
    }

    proof fn asymmetric(a: Self, b: Self) {
        text::lemma_text_lt_total(a.name@, b.name@);
    }

    proof fn transitive(a: Self, b: Self, c: Self) {
        order::lemma_texts_chain(a.name@, b.name@, c.name@);
    }

    fn before(&self, other: &Self) -> (r: bool) {
        text::less(self.name.as_str(), other.name.as_str())
    }
}

/// The files of a directory in the order of their names, which a filesystem does not give.
pub fn sorted_files(files: Vec<Found>) -> (r: Vec<Found>)
    ensures
        order::sorted(r@),
        r@.to_multiset() == files@.to_multiset(),
{
    order::sort(files)
}

/// Every hook found, in the order they will run.
#[derive(Debug)]
pub struct Hooks {
    hooks: Vec<Hook>,
}

impl Hooks {
    /// The hooks.
    pub closed spec fn spec_all(self) -> Seq<HookView> {
        hook_views(self.hooks@)
    }

    /// Takes every `.hook` in `directories`, which are in `pacman.conf` order.
    ///
    /// Returns what parsed and, separately, everything that did not. A single bad hook file does
    /// not hide the rest, but it does hide the files of its name in earlier directories.
    pub fn collect(directories: &Vec<Directory>) -> (r: (Self, Vec<Problem>))
        ensures
            in_order(r.0.spec_all()),
            r.0.spec_all().to_multiset() == gathered(directories@, 0).hooks.to_multiset(),
            problem_views(r.1@) == gathered(directories@, 0).problems,
    {
        let mut hooks: Vec<Hook> = Vec::new();
        let mut problems: Vec<Problem> = Vec::new();
        let mut seen: Vec<String> = Vec::new();
        let mut i: usize = directories.len();
        assert(text::texts(seen@) =~= Seq::<Seq<char>>::empty());
        assert(hook_views(hooks@) =~= Seq::<HookView>::empty());
        assert(problem_views(problems@) =~= Seq::<ProblemView>::empty());
        while i > 0
            invariant
                i <= directories.len(),
                gathered(directories@, i as int) == (Gathered {
                    hooks: hook_views(hooks@),
                    problems: problem_views(problems@),
                    seen: text::texts(seen@),
                }),
            decreases i,
        {
            i -= 1;
            let directory = &directories[i];
            let ghost before = problem_views(problems@);
            match &directory.listing {
                Listing::Missing => {},
                Listing::Unreadable(reason) => {
                    problems.push(
                        Problem::UnreadableDirectory {
                            path: directory.path.clone(),
                            reason: reason.clone(),
                        },
                    );
                    assert(problem_views(problems@) =~= before.push(
                        ProblemView::UnreadableDirectory {
                            path: directory.path@,
                            reason: reason@,
                        },
                    ));
                },
                Listing::Files(files) => {
                    take_files(
                        &mut hooks,
                        &mut problems,
                        &mut seen,
                        directory.path.as_str(),
                        files,
                    );
                },
            }
        }
        let ghost found = hooks@;
        let sorted = order::sort(hooks);
        proof {
            let f = |hook: Hook| hook@;
            order::lemma_map_multiset(sorted@, found, f);
            assert(hook_views(sorted@) =~= sorted@.map_values(f));
            assert(hook_views(found) =~= found.map_values(f));
            assert forall|i: int, j: int|
                0 <= i < j < hook_views(sorted@).len() implies text::text_le(
                spec_stem((#[trigger] hook_views(sorted@)[i]).name),
                spec_stem((#[trigger] hook_views(sorted@)[j]).name),
            ) by {
                assert(!order::Ordered::precedes(sorted@[j], sorted@[i]));
                text::lemma_text_lt_total(spec_stem(sorted@[i].name@), spec_stem(sorted@[j].name@));
            }
        }
        (Hooks { hooks: sorted }, problems)
    }

    /// Every hook, in the order they will run.
    pub fn all(&self) -> (r: &Vec<Hook>)
        ensures
            hook_views(r@) == self.spec_all(),
    {
        &self.hooks
    }

    /// The hooks that `summary` sets off at `when`, each with the targets it matched.
    ///
    /// A masking hook has no `When`. It is never selected, regardless of the transaction.
    pub fn triggered(&self, when: When, answers: &Answers, summary: &Summary) -> (r: Vec<
        (&Hook, Vec<String>),
    >)
        ensures
            picked(r@) == self.spec_all().filter(|hook: HookView| sets_off(hook, when, *answers, *summary)),
            forall|i: int|
                0 <= i < r@.len() ==> trigger::is_target_list(
                    (#[trigger] r@[i]).0@,
                    *answers,
                    *summary,
                    text::texts(r@[i].1@),
                ),
    {
        let mut out: Vec<(&Hook, Vec<String>)> = Vec::new();
        let ghost keep = |hook: HookView| sets_off(hook, when, *answers, *summary);
        let ghost all = self.spec_all();
        let mut i: usize = 0;
        proof {
            reveal(Seq::filter);
            assert(picked(out@) =~= all.take(0).filter(keep));
        }
        while i < self.hooks.len()
            invariant
                i <= self.hooks.len(),
                all == hook_views(self.hooks@),
                keep == (|hook: HookView| sets_off(hook, when, *answers, *summary)),
                picked(out@) == all.take(i as int).filter(keep),
                forall|k: int|
                    0 <= k < out@.len() ==> trigger::is_target_list(
                        (#[trigger] out@[k]).0@,
                        *answers,
                        *summary,
                        text::texts(out@[k].1@),
                    ),
            decreases self.hooks.len() - i,
        {
            let hook = &self.hooks[i];
            let ghost before = picked(out@);
            proof {
                order::lemma_filter_step(all, i as int, keep);
                assert(all[i as int] == hook@);
            }
            if hook.when == Some(when) && hook.is_active() {
                if let Some(targets) = trigger::triggered(hook, answers, summary) {
                    out.push((hook, targets));
                    assert(picked(out@) =~= before.push(hook@));
                }
            }
            i += 1;
        }
        assert(all.take(i as int) =~= all);
        out
    }
}

/// Whether a transaction sets a hook off at a time.
pub open spec fn sets_off(
    hook: HookView,
    when: When,
    answers: Answers,
    summary: Summary,
) -> bool {
    hook.when == Some(when) && hook.active() && trigger::fires(hook, answers, summary)
}

/// The hooks of a list of triggered ones.
pub open spec fn picked(list: Seq<(&Hook, Vec<String>)>) -> Seq<HookView> {
    Seq::new(list.len(), |i: int| list[i].0@)
}

/// Takes the files of one directory.
fn take_files(
    hooks: &mut Vec<Hook>,
    problems: &mut Vec<Problem>,
    seen: &mut Vec<String>,
    directory: &str,
    files: &Vec<Found>,
)
    ensures
        (Gathered {
            hooks: hook_views(final(hooks)@),
            problems: problem_views(final(problems)@),
            seen: text::texts(final(seen)@),
        }) == after_files(
            (Gathered {
                hooks: hook_views(old(hooks)@),
                problems: problem_views(old(problems)@),
                seen: text::texts(old(seen)@),
            }),
            directory@,
            files@,
        ),
{
    let ghost start = Gathered {
        hooks: hook_views(hooks@),
        problems: problem_views(problems@),
        seen: text::texts(seen@),
    };
    let mut i: usize = 0;
    assert(files@.take(0) =~= Seq::<Found>::empty());
    while i < files.len()
        invariant
            i <= files.len(),
            (Gathered {
                hooks: hook_views(hooks@),
                problems: problem_views(problems@),
                seen: text::texts(seen@),
            }) == after_files(start, directory@, files@.take(i as int)),
        decreases files.len() - i,
    {
        let found = &files[i];
        let ghost had = hook_views(hooks@);
        let ghost said = problem_views(problems@);
        proof {
            let so_far = files@.take(i + 1);
            assert(so_far.drop_last() =~= files@.take(i as int));
            assert(so_far.last() == *found);
        }
        let name = text::chars(found.name.as_str());
        let suffix = text::before_text(name.as_slice(), HOOK_SUFFIX);
        if suffix.is_some() && !is_seen(seen, found.name.as_str()) {
            match load(directory, found) {
                Ok(Some(hook)) => {
                    hooks.push(hook);
                    seen.push(found.name.clone());
                    assert(hook_views(hooks@) =~= had.push(hook@));
                },
                Ok(None) => {},
                Err(problem) => {
                    problems.push(problem);
                    seen.push(found.name.clone());
                    assert(problem_views(problems@) =~= said.push(problem@));
                },
            }
        }
        i += 1;
    }
    assert(files@.take(i as int) =~= files@);
}

/// Whether a hook file of this name was seen.
fn is_seen(seen: &Vec<String>, name: &str) -> (r: bool)
    ensures
        r == text::texts(seen@).contains(name@),
{
    let mut i: usize = 0;
    while i < seen.len()
        invariant
            i <= seen.len(),
            forall|k: int| 0 <= k < i ==> (#[trigger] seen@[k])@ != name@,
        decreases seen.len() - i,
    {
        if text::same(seen[i].as_str(), name) {
            assert(text::texts(seen@)[i as int] == name@);
            return true;
        }
        i += 1;
    }
    assert forall|k: int| 0 <= k < text::texts(seen@).len() implies text::texts(seen@)[k]
        != name@ by {
        assert(seen@[k]@ != name@);
    }
    false
}

/// Reads one hook file, or returns `Ok(None)` for a directory.
///
/// A file that is neither is taken for empty: it parses into an inert masking hook, which is what
/// reading `/dev/null` gives.
fn load(directory: &str, found: &Found) -> (r: Result<Option<Hook>, Problem>)
    ensures
        match r {
            Ok(Some(hook)) => loaded(directory@, *found) == Ok::<Option<HookView>, ProblemView>(
                Some(hook@),
            ),
            Ok(None) => loaded(directory@, *found) == Ok::<Option<HookView>, ProblemView>(None),
            Err(problem) => loaded(directory@, *found) == Err::<Option<HookView>, ProblemView>(
                problem@,
            ),
        },
{
    match &found.contents {
        Contents::Directory => Ok(None),
        Contents::Unreadable(reason) => Err(
            Problem::UnreadableHook {
                path: paths::join(directory, found.name.as_str()),
                reason: reason.clone(),
            },
        ),
        Contents::Special => {
            let none = String::new();
            assert(none@ =~= Seq::<char>::empty());
            match parse::parse(found.name.as_str(), none.as_str()) {
                Ok(hook) => Ok(Some(hook)),
                Err(error) => Err(Problem::Invalid(error)),
            }
        },
        Contents::Text(contents) => match parse::parse(found.name.as_str(), contents.as_str()) {
            Ok(hook) => Ok(Some(hook)),
            Err(error) => Err(Problem::Invalid(error)),
        },
    }
}

// ---------------------------------------------------------------------------------------------
// Running

/// What running one hook produced.
#[derive(Clone, Debug)]
pub struct Run {
    /// The hook's file name.
    pub name: String,
    /// Its `Description`, if it had one.
    pub description: Option<String>,
    /// How the command ended, or `None` if a `Depends` was not satisfied and it never ran.
    pub outcome: Option<Outcome>,
    /// The unsatisfied `Depends` entry, when there was one.
    pub unsatisfied: Option<String>,
    /// Whether this failure should stop the transaction.
    ///
    /// True only for a `PreTransaction` hook with `AbortOnFail` that did not succeed. After the
    /// transaction nothing is left to abort.
    pub fatal: bool,
}

impl Run {
    /// Whether the hook ran and succeeded.
    pub open spec fn spec_succeeded(self) -> bool {
        self.outcome matches Some(outcome) && outcome.status@ == StatusView::Exited(0)
    }

    /// Whether the hook ran and succeeded.
    pub fn succeeded(&self) -> (r: bool)
        ensures
            r == self.spec_succeeded(),
    {
        match &self.outcome {
            Some(outcome) => outcome.succeeded(),
            None => false,
        }
    }

    /// Whether this is a run of `hook` that has no outcome.
    pub open spec fn idle(self, hook: HookView) -> bool {
        &&& self.name@ == hook.name
        &&& text::maybe(self.description) == hook.description
        &&& self.outcome is None
    }
}

/// The first `Depends` entry that is not understood or that nothing installed satisfies.
pub open spec fn first_missing(
    depends: Seq<Seq<char>>,
    understood: Seq<bool>,
    satisfied: Seq<Seq<char>>,
    i: int,
) -> Option<Seq<char>>
    decreases depends.len() - i,
{
    if i >= depends.len() {
        None
    } else if !understood[i] || !satisfied.contains(depends[i]) {
        Some(depends[i])
    } else {
        first_missing(depends, understood, satisfied, i + 1)
    }
}

/// Which of a list of texts state a package relation.
pub open spec fn relations(depends: Seq<Seq<char>>) -> Seq<bool> {
    Seq::new(depends.len(), |i: int| crate::package::is_relation(depends[i]))
}

/// The first entry of `depends` that is not understood or that nothing installed satisfies.
/// `satisfied` holds the entries that an installed package satisfies.
pub fn missing_dependency(
    depends: &Vec<String>,
    understood: &Vec<bool>,
    satisfied: &TextSet,
) -> (r: Option<String>)
    requires
        understood@.len() == depends@.len(),
    ensures
        text::maybe(r) == first_missing(
            text::texts(depends@),
            understood@,
            satisfied@,
            0,
        ),
{
    let mut i: usize = 0;
    while i < depends.len()
        invariant
            i <= depends.len(),
            understood@.len() == depends@.len(),
            first_missing(text::texts(depends@), understood@, satisfied@, 0) == first_missing(
                text::texts(depends@),
                understood@,
                satisfied@,
                i as int,
            ),
        decreases depends.len() - i,
    {
        assert(text::texts(depends@)[i as int] == depends@[i as int]@);
        if !understood[i] || !satisfied.contains(depends[i].as_str()) {
            return Some(depends[i].clone());
        }
        i += 1;
    }
    None
}

/// The first `Depends` entry no installed package satisfies. `satisfied` holds those that one
/// does.
///
/// An entry that cannot be parsed counts as unsatisfied: running a hook whose stated requirement
/// could not even be understood is not the safe direction.
pub fn unsatisfied_dependency(hook: &Hook, satisfied: &TextSet) -> (r: Option<String>)
    ensures
        text::maybe(r) == first_missing(
            hook@.depends,
            relations(hook@.depends),
            satisfied@,
            0,
        ),
{
    let mut understood: Vec<bool> = Vec::new();
    let mut i: usize = 0;
    while i < hook.depends.len()
        invariant
            i <= hook.depends.len(),
            understood@ == relations(hook@.depends).take(i as int),
        decreases hook.depends.len() - i,
    {
        let known = known_relation(hook.depends[i].as_str());
        understood.push(known);
        proof {
            let all = relations(hook@.depends);
            assert(all.take(i + 1) =~= all.take(i as int).push(all[i as int]));
        }
        i += 1;
    }
    assert(relations(hook@.depends).take(i as int) =~= relations(hook@.depends));
    missing_dependency(&hook.depends, &understood, satisfied)
}

/// Whether a hook that does not succeed stops the transaction.
pub open spec fn aborts(hook: HookView) -> bool {
    hook.abort_on_fail && hook.when == Some(When::PreTransaction)
}

/// What a hook needs run.
#[derive(Debug)]
pub enum Prepared {
    /// Nothing: this is what became of it.
    Done(Run),
    /// A command.
    Start(Command),
}

/// What running a hook starts with, given the first `Depends` entry that is not satisfied.
///
/// `targets` is fed to the command on stdin, one per line, when the hook sets `NeedsTargets`.
pub fn prepare(hook: &Hook, targets: &Vec<String>, missing: Option<String>) -> (r: Prepared)
    ensures
        match r {
            Prepared::Done(run) => {
                &&& missing is Some || hook@.command.len() == 0
                &&& run.idle(hook@)
                &&& text::maybe(run.unsatisfied) == text::maybe(missing)
                &&& run.fatal == (missing is Some && aborts(hook@))
            },
            Prepared::Start(command) => {
                &&& missing is None && hook@.command.len() > 0
                &&& command@ == (CommandView {
                    program: hook@.command[0],
                    args: hook@.command.skip(1),
                    stdin: if hook@.needs_targets {
                        Some(vstd::utf8::encode_utf8(text::unlines(text::texts(targets@))))
                    } else {
                        None
                    },
                })
            },
        },
{
    if missing.is_some() || hook.command.len() == 0 {
        let fatal = missing.is_some() && hook.abort_on_fail && hook.when == Some(
            When::PreTransaction,
        );
        return Prepared::Done(
            Run {
                name: hook.name.clone(),
                description: hook.description.clone(),
                outcome: None,
                unsatisfied: missing,
                fatal,
            },
        );
    }
    let mut command = Command::new(hook.command[0].clone());
    let ghost words = hook@.command;
    let mut i: usize = 1;
    assert(words.subrange(1, 1) =~= Seq::<Seq<char>>::empty());
    while i < hook.command.len()
        invariant
            1 <= i <= hook.command.len(),
            words == text::texts(hook.command@),
            command@ == (CommandView {
                program: words[0],
                args: words.subrange(1, i as int),
                stdin: None,
            }),
        decreases hook.command.len() - i,
    {
        command = command.arg(hook.command[i].clone());
        assert(words.subrange(1, i + 1) =~= words.subrange(1, i as int).push(words[i as int]));
        i += 1;
    }
    assert(words.subrange(1, i as int) =~= words.skip(1));
    if hook.needs_targets {
        let payload = one_per_line(targets);
        command = command.stdin(payload.as_str().as_bytes_vec());
    }
    Prepared::Start(command)
}

/// Texts, one per line.
fn one_per_line(list: &Vec<String>) -> (r: String)
    ensures
        r@ == text::unlines(text::texts(list@)),
{
    let mut out = String::new();
    let ghost all = text::texts(list@);
    let mut i: usize = 0;
    assert(out@ =~= text::unlines(all.take(0)));
    while i < list.len()
        invariant
            i <= list.len(),
            all == text::texts(list@),
            out@ == text::unlines(all.take(i as int)),
        decreases list.len() - i,
    {
        let ghost before = out@;
        out.push_str(list[i].as_str());
        out.push('\n');
        proof {
            text::lemma_unlines_push(all.take(i as int), all[i as int]);
            assert(all.take(i + 1) =~= all.take(i as int).push(all[i as int]));
            assert(out@ =~= before + all[i as int].push('\n'));
        }
        i += 1;
    }
    assert(all.take(i as int) =~= all);
    out
}

/// What became of a hook whose command ended.
pub fn finish(hook: &Hook, outcome: Outcome) -> (r: Run)
    ensures
        r.name@ == hook@.name,
        text::maybe(r.description) == hook@.description,
        r.outcome == Some(outcome),
        r.unsatisfied is None,
        r.fatal == (!r.spec_succeeded() && aborts(hook@)),
{
    let fatal = !outcome.succeeded() && hook.abort_on_fail && hook.when == Some(
        When::PreTransaction,
    );
    Run {
        name: hook.name.clone(),
        description: hook.description.clone(),
        outcome: Some(outcome),
        unsatisfied: None,
        fatal,
    }
}

// ---------------------------------------------------------------------------------------------
// Laws

/// The hook file that a directory holds under a name.
pub open spec fn held(files: Seq<Found>, name: Seq<char>) -> Option<Found>
    decreases files.len(),
{
    if files.len() == 0 {
        None
    } else {
        let earlier = held(files.drop_last(), name);
        if earlier is None && files.last().name@ == name && files.last().contents
            !is Directory {
            Some(files.last())
        } else {
            earlier
        }
    }
}

/// The hook file that wins a name, and its directory: the last one which holds such a file.
pub open spec fn winner(directories: Seq<Directory>, i: int, name: Seq<char>) -> Option<
    (Seq<char>, Found),
>
    decreases directories.len() - i,
{
    if i >= directories.len() {
        None
    } else {
        let later = winner(directories, i + 1, name);
        if later is Some {
            later
        } else {
            match directories[i].listing {
                Listing::Files(files) => match held(files@, name) {
                    Some(found) => Some((directories[i].path@, found)),
                    None => None,
                },
                _ => None,
            }
        }
    }
}

/// What the hook file that wins a name comes to.
pub open spec fn won(directories: Seq<Directory>, i: int, name: Seq<char>) -> Result<
    Option<HookView>,
    ProblemView,
> {
    match winner(directories, i, name) {
        Some((directory, found)) => loaded(directory, found),
        None => Ok(None),
    }
}

/// A loaded hook has the name of its file.
proof fn lemma_loaded_name(directory: Seq<char>, found: Found)
    ensures
        loaded(directory, found) matches Ok(Some(hook)) ==> hook.name == found.name@,
{
    parse::a_hook_keeps_its_name(found.name@, text::lines(Seq::empty()));
    if let Contents::Text(contents) = found.contents {
        parse::a_hook_keeps_its_name(found.name@, text::lines(contents@));
    }
}

/// What a list holds after one more.
proof fn lemma_push_contains<A>(list: Seq<A>, new: A, a: A)
    ensures
        list.push(new).contains(a) <==> list.contains(a) || a == new,
{
    if list.contains(a) {
        let i = choose|i: int| 0 <= i < list.len() && list[i] == a;
        assert(list.push(new)[i] == a);
    }
    assert(list.push(new)[list.len() as int] == new);
}

/// What the files of a directory add under a name: what the one it holds comes to, where no file
/// of the name was seen.
proof fn lemma_after_files(
    so_far: Gathered,
    directory: Seq<char>,
    files: Seq<Found>,
    hook: HookView,
    problem: ProblemView,
)
    ensures
        ({
            let after = after_files(so_far, directory, files);
            let file = held(files, hook.name);
            let fresh = !so_far.seen.contains(hook.name) && text::ends_with(
                hook.name,
                HOOK_SUFFIX@,
            ) && file is Some;
            &&& after.seen.contains(hook.name) <==> so_far.seen.contains(hook.name) || fresh
            &&& after.hooks.contains(hook) <==> so_far.hooks.contains(hook) || (fresh && loaded(
                directory,
                file->0,
            ) == Ok::<Option<HookView>, ProblemView>(Some(hook)))
            &&& so_far.problems.contains(problem) ==> after.problems.contains(problem)
            &&& fresh && loaded(directory, file->0) == Err::<Option<HookView>, ProblemView>(problem)
                ==> after.problems.contains(problem)
        }),
    decreases files.len(),
{
    if files.len() > 0 {
        let mid = after_files(so_far, directory, files.drop_last());
        let last = files.last();
        lemma_after_files(so_far, directory, files.drop_last(), hook, problem);
        lemma_loaded_name(directory, last);
        lemma_push_contains(mid.seen, last.name@, hook.name);
        match loaded(directory, last) {
            Ok(Some(new)) => lemma_push_contains(mid.hooks, new, hook),
            Ok(None) => {},
            Err(new) => lemma_push_contains(mid.problems, new, problem),
        }
    }
}

/// A later directory overrides an earlier one: under each name with the suffix, what is found is
/// what the file of the last directory which holds one comes to. Where that file is broken, it is
/// reported, and there is no hook of its name.
pub proof fn a_later_directory_wins(
    directories: Seq<Directory>,
    i: int,
    hook: HookView,
    problem: ProblemView,
)
    ensures
        gathered(directories, i).seen.contains(hook.name) <==> text::ends_with(
            hook.name,
            HOOK_SUFFIX@,
        ) && winner(directories, i, hook.name) is Some,
        gathered(directories, i).hooks.contains(hook) <==> text::ends_with(hook.name, HOOK_SUFFIX@)
            && won(directories, i, hook.name) == Ok::<Option<HookView>, ProblemView>(Some(hook)),
        text::ends_with(hook.name, HOOK_SUFFIX@) && won(directories, i, hook.name) == Err::<
            Option<HookView>,
            ProblemView,
        >(problem) ==> gathered(directories, i).problems.contains(problem),
    decreases directories.len() - i,
{
    if i < directories.len() {
        let later = gathered(directories, i + 1);
        a_later_directory_wins(directories, i + 1, hook, problem);
        match directories[i].listing {
            Listing::Missing => {},
            Listing::Unreadable(reason) => {
                lemma_push_contains(
                    later.problems,
                    ProblemView::UnreadableDirectory {
                        path: directories[i].path@,
                        reason: reason@,
                    },
                    problem,
                );
            },
            Listing::Files(files) => {
                lemma_after_files(later, directories[i].path@, files@, hook, problem);
            },
        }
    }
}

/// No two hooks have one name.
pub open spec fn distinct(hooks: Seq<HookView>) -> bool {
    forall|a: int, b: int|
        0 <= a < b < hooks.len() ==> (#[trigger] hooks[a]).name != (#[trigger] hooks[b]).name
}

/// The name of each hook was seen.
spec fn all_seen(so_far: Gathered) -> bool {
    forall|a: int|
        0 <= a < so_far.hooks.len() ==> so_far.seen.contains((#[trigger] so_far.hooks[a]).name)
}

/// What the files of a directory add keeps names distinct.
proof fn lemma_files_distinct(so_far: Gathered, directory: Seq<char>, files: Seq<Found>)
    requires
        distinct(so_far.hooks),
        all_seen(so_far),
    ensures
        distinct(after_files(so_far, directory, files).hooks),
        all_seen(after_files(so_far, directory, files)),
    decreases files.len(),
{
    if files.len() > 0 {
        let mid = after_files(so_far, directory, files.drop_last());
        let last = files.last();
        let after = after_files(so_far, directory, files);
        lemma_files_distinct(so_far, directory, files.drop_last());
        lemma_loaded_name(directory, last);
        assert forall|a: int| 0 <= a < after.hooks.len() implies after.seen.contains(
            (#[trigger] after.hooks[a]).name,
        ) by {
            lemma_push_contains(mid.seen, last.name@, after.hooks[a].name);
            if a < mid.hooks.len() {
                assert(after.hooks[a] == mid.hooks[a]);
            }
        }
        assert forall|a: int, b: int| 0 <= a < b < after.hooks.len() implies (
        #[trigger] after.hooks[a]).name != (#[trigger] after.hooks[b]).name by {
            assert(after.hooks[a] == mid.hooks[a]);
            if b < mid.hooks.len() {
                assert(after.hooks[b] == mid.hooks[b]);
            }
        }
    }
}

proof fn lemma_gathered_distinct(directories: Seq<Directory>, i: int)
    ensures
        distinct(gathered(directories, i).hooks),
        all_seen(gathered(directories, i)),
    decreases directories.len() - i,
{
    if i < directories.len() {
        lemma_gathered_distinct(directories, i + 1);
        if let Listing::Files(files) = directories[i].listing {
            lemma_files_distinct(
                gathered(directories, i + 1),
                directories[i].path@,
                files@,
            );
        }
    }
}

/// No two of the hooks that are found have one name.
pub proof fn no_name_is_taken_twice(directories: Seq<Directory>, i: int)
    ensures
        distinct(gathered(directories, i).hooks),
{
    lemma_gathered_distinct(directories, i);
}

/// A hook that masks another is never set off.
pub proof fn a_mask_never_runs(
    hook: HookView,
    when: When,
    answers: Answers,
    summary: Summary,
)
    requires
        hook.triggers.len() == 0,
    ensures
        !sets_off(hook, when, answers, summary),
{
}

} // verus!
