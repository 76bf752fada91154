//! Whether a transaction sets a hook off, and with which targets.
//!
//! This is a pure function over a [`Summary`] of what the transaction will do: no filesystem, no
//! database, no process.
//!
//! # "Upgrade" is not "a newer version"
//!
//! For a `Package` trigger, upgrade means that something was installed under this name before.
//! For a `Path` trigger it means that the path is in both the set being written and the set being
//! taken away, with no reference to versions or to which package owned it.

use vstd::prelude::*;

use super::parse::{Hook, HookView, Operations, Trigger, TriggerKind, TriggerView};
use crate::pattern::Answers;
use crate::table;
use crate::table::TextSet;
use crate::text;

verus! {

broadcast use crate::text::group_lists;

/// One package the transaction adds.
#[derive(Clone, Debug)]
pub struct Added {
    /// Its name.
    pub name: String,
    /// The paths it will own, without a leading `/`.
    pub files: Vec<String>,
    /// The paths the version it replaces owns, empty for a fresh install.
    pub old_files: Vec<String>,
    /// Whether a version of this package was already installed. A package can replace an installed
    /// version that owns no files.
    pub replaces_installed: bool,
}

/// One package the transaction takes away outright.
#[derive(Clone, Debug)]
pub struct Removed {
    /// Its name.
    pub name: String,
    /// The paths it owns, without a leading `/`.
    pub files: Vec<String>,
}

/// Everything a hook needs to know about a transaction.
#[derive(Clone, Debug)]
pub struct Summary {
    /// Packages being installed or upgraded.
    pub added: Vec<Added>,
    /// Packages being removed.
    pub removed: Vec<Removed>,
    /// `NoExtract` patterns: a path matching them is never written, so it triggers nothing.
    pub no_extract: Vec<String>,
}

impl Default for Added {
    fn default() -> (r: Self)
        ensures
            r.name@.len() == 0,
            r.files@.len() == 0,
            r.old_files@.len() == 0,
            !r.replaces_installed,
    {
        Added {
            name: String::new(),
            files: Vec::new(),
            old_files: Vec::new(),
            replaces_installed: false,
        }
    }
}

impl Default for Removed {
    fn default() -> (r: Self)
        ensures
            r.name@.len() == 0,
            r.files@.len() == 0,
    {
        Removed { name: String::new(), files: Vec::new() }
    }
}

impl Default for Summary {
    fn default() -> (r: Self)
        ensures
            r.added@.len() == 0,
            r.removed@.len() == 0,
            r.no_extract@.len() == 0,
    {
        Summary { added: Vec::new(), removed: Vec::new(), no_extract: Vec::new() }
    }
}

/// What a trigger matched, if anything.
#[derive(Debug)]
pub struct Matches {
    /// Names or paths appearing where there were none.
    pub install: TextSet,
    /// Names or paths replacing existing ones.
    pub upgrade: TextSet,
    /// Names or paths going away.
    pub remove: TextSet,
}

impl Summary {
    /// Whether a package of this name is added, and whether it replaces an installed version.
    pub open spec fn adds(self, name: Seq<char>, replaces: bool) -> bool {
        exists|i: int|
            0 <= i < self.added@.len() && (#[trigger] self.added@[i]).name@ == name
                && self.added@[i].replaces_installed == replaces
    }

    /// Whether a package of this name is removed.
    pub open spec fn removes(self, name: Seq<char>) -> bool {
        exists|i: int| 0 <= i < self.removed@.len() && (#[trigger] self.removed@[i]).name@ == name
    }

    /// Whether a path is written: some added package ships it, and `NoExtract` does not keep it
    /// out.
    pub open spec fn writes(self, answers: Answers, path: Seq<char>) -> bool {
        &&& !answers.matches(text::texts(self.no_extract@), path)
        &&& ships(self.added@, path)
    }

    /// Whether a path is taken away: a version that is replaced or removed owns it.
    pub open spec fn takes(self, path: Seq<char>) -> bool {
        owned_before(self.added@, path) || owned(self.removed@, path)
    }
}

/// Whether some package of a list ships a path.
pub open spec fn ships(added: Seq<Added>, path: Seq<char>) -> bool {
    exists|i: int|
        0 <= i < added.len() && text::texts((#[trigger] added[i]).files@).contains(path)
}

/// Whether a version that some package of a list replaces owns a path.
pub open spec fn owned_before(added: Seq<Added>, path: Seq<char>) -> bool {
    exists|i: int|
        0 <= i < added.len() && text::texts((#[trigger] added[i]).old_files@).contains(path)
}

/// Whether some package of a list that goes owns a path.
pub open spec fn owned(removed: Seq<Removed>, path: Seq<char>) -> bool {
    exists|i: int|
        0 <= i < removed.len() && text::texts((#[trigger] removed[i]).files@).contains(path)
}

/// Whether a trigger takes a name or path for one that appears.
pub open spec fn installs(
    trigger: TriggerView,
    answers: Answers,
    summary: Summary,
    key: Seq<char>,
) -> bool {
    answers.matches(trigger.targets, key) && if trigger.kind == Some(TriggerKind::Path) {
        summary.writes(answers, key) && !summary.takes(key)
    } else {
        summary.adds(key, false)
    }
}

/// Whether a trigger takes a name or path for one that replaces an existing one.
pub open spec fn upgrades(
    trigger: TriggerView,
    answers: Answers,
    summary: Summary,
    key: Seq<char>,
) -> bool {
    answers.matches(trigger.targets, key) && if trigger.kind == Some(TriggerKind::Path) {
        summary.writes(answers, key) && summary.takes(key)
    } else {
        summary.adds(key, true)
    }
}

/// Whether a trigger takes a name or path for one that goes away. A package that is also being
/// added does not: it is the old half of an upgrade.
pub open spec fn loses(
    trigger: TriggerView,
    answers: Answers,
    summary: Summary,
    key: Seq<char>,
) -> bool {
    answers.matches(trigger.targets, key) && if trigger.kind == Some(TriggerKind::Path) {
        summary.takes(key) && !summary.writes(answers, key)
    } else {
        summary.removes(key) && !summary.adds(key, false) && !summary.adds(key, true)
    }
}

/// Whether a name or path is one that a trigger reacts to.
pub open spec fn selects(
    trigger: TriggerView,
    answers: Answers,
    summary: Summary,
    key: Seq<char>,
) -> bool {
    ||| trigger.operations.install && installs(trigger, answers, summary, key)
    ||| trigger.operations.upgrade && upgrades(trigger, answers, summary, key)
    ||| trigger.operations.remove && loses(trigger, answers, summary, key)
}

/// Whether a trigger fires.
pub open spec fn trigger_fires(trigger: TriggerView, answers: Answers, summary: Summary) -> bool {
    exists|key: Seq<char>| selects(trigger, answers, summary, key)
}

/// Whether any of the first `n` triggers fires.
pub open spec fn any_fires(
    triggers: Seq<TriggerView>,
    n: int,
    answers: Answers,
    summary: Summary,
) -> bool {
    exists|t: int| 0 <= t < n && trigger_fires(#[trigger] triggers[t], answers, summary)
}

/// Whether any of the first `n` triggers reacts to a name or path.
pub open spec fn any_selects(
    triggers: Seq<TriggerView>,
    n: int,
    answers: Answers,
    summary: Summary,
    key: Seq<char>,
) -> bool {
    exists|t: int| 0 <= t < n && selects(#[trigger] triggers[t], answers, summary, key)
}

/// Whether a transaction sets a hook off.
pub open spec fn fires(hook: HookView, answers: Answers, summary: Summary) -> bool {
    any_fires(hook.triggers, hook.triggers.len() as int, answers, summary)
}

/// Whether `targets` is what a hook that fires is given: nothing, or, where it needs targets, each
/// name or path that any of its triggers reacts to, once, in order.
pub open spec fn is_target_list(
    hook: HookView,
    answers: Answers,
    summary: Summary,
    targets: Seq<Seq<char>>,
) -> bool {
    if hook.needs_targets {
        &&& table::strictly_ascending(targets)
        &&& forall|key: Seq<char>| #[trigger]
            targets.contains(key) <==> any_selects(
                hook.triggers,
                hook.triggers.len() as int,
                answers,
                summary,
                key,
            )
    } else {
        targets.len() == 0
    }
}

impl Matches {
    /// Whether this is what a trigger matched.
    pub open spec fn of(self, trigger: TriggerView, answers: Answers, summary: Summary) -> bool {
        &&& self.install.wf() && self.upgrade.wf() && self.remove.wf()
        &&& forall|key: Seq<char>| #[trigger]
            self.install@.contains(key) <==> installs(trigger, answers, summary, key)
        &&& forall|key: Seq<char>| #[trigger]
            self.upgrade@.contains(key) <==> upgrades(trigger, answers, summary, key)
        &&& forall|key: Seq<char>| #[trigger]
            self.remove@.contains(key) <==> loses(trigger, answers, summary, key)
    }

    /// Whether `operations` selects at least one of the three sets.
    pub fn fires(&self, operations: Operations) -> (r: bool)
        ensures
            r == ((operations.install && self.install@.len() > 0) || (operations.upgrade
                && self.upgrade@.len() > 0) || (operations.remove && self.remove@.len() > 0)),
    {
        (operations.contains(Operations::install()) && !self.install.is_empty()) || (
        operations.contains(Operations::upgrade()) && !self.upgrade.is_empty()) || (
        operations.contains(Operations::remove()) && !self.remove.is_empty())
    }

    /// Adds the subset `operations` asked for. This is what `NeedsTargets` feeds to the command.
    pub fn selected(&self, operations: Operations, into: &mut TextSet)
        ensures
            final(into).wf(),
            forall|key: Seq<char>| #[trigger]
                final(into)@.contains(key) <==> old(into)@.contains(key) || (operations.install
                    && self.install@.contains(key)) || (operations.upgrade
                    && self.upgrade@.contains(key)) || (operations.remove
                    && self.remove@.contains(key)),
    {
        let none = TextSet::new();
        assert forall|key: Seq<char>| !none@.contains(key) by {}
        extend(
            into,
            if operations.contains(Operations::install()) {
                &self.install
            } else {
                &none
            },
        );
        extend(
            into,
            if operations.contains(Operations::upgrade()) {
                &self.upgrade
            } else {
                &none
            },
        );
        extend(
            into,
            if operations.contains(Operations::remove()) {
                &self.remove
            } else {
                &none
            },
        );
    }
}

/// Adds every text of a set to another.
fn extend(into: &mut TextSet, from: &TextSet)
    ensures
        final(into).wf(),
        forall|key: Seq<char>| #[trigger]
            final(into)@.contains(key) <==> old(into)@.contains(key) || from@.contains(key),
{
    let ghost start = into@;
    proof {
        use_type_invariant(&*into);
    }
    let mut i: usize = 0;
    while i < from.len()
        invariant
            i <= from@.len(),
            into.wf(),
            forall|key: Seq<char>| #[trigger]
                into@.contains(key) <==> start.contains(key) || from@.take(i as int).contains(key),
        decreases from@.len() - i,
    {
        into.insert(from.get(i).to_owned());
        proof {
            lemma_take_one_more(from@, i as int);
        }
        i += 1;
    }
    assert(from@.take(i as int) =~= from@);
}

/// What one more text adds to a prefix.
proof fn lemma_take_one_more(s: Seq<Seq<char>>, i: int)
    requires
        0 <= i < s.len(),
    ensures
        forall|key: Seq<char>| #[trigger]
            s.take(i + 1).contains(key) <==> s.take(i).contains(key) || key == s[i],
{
    let more = s.take(i + 1);
    assert(more =~= s.take(i).push(s[i]));
    assert forall|key: Seq<char>| #[trigger] more.contains(key) <==> s.take(i).contains(key) || key
        == s[i] by {
        if s.take(i).contains(key) {
            let k = choose|k: int| 0 <= k < s.take(i).len() && s.take(i)[k] == key;
            assert(more[k] == key);
        }
        if key == s[i] {
            assert(more[i] == key);
        }
    }
}

/// Adds the paths of a list that one list of patterns matches and another, where there is one, does
/// not.
fn gather(
    into: &mut TextSet,
    paths: &Vec<String>,
    targets: &Vec<String>,
    kept_out: Option<&Vec<String>>,
    answers: &Answers,
)
    ensures
        final(into).wf(),
        forall|key: Seq<char>| #[trigger]
            final(into)@.contains(key) <==> old(into)@.contains(key) || (text::texts(
                paths@,
            ).contains(key) && answers.matches(text::texts(targets@), key) && !(
            kept_out matches Some(patterns) && answers.matches(text::texts(patterns@), key))),
{
    let ghost start = into@;
    proof {
        use_type_invariant(&*into);
    }
    let ghost all = text::texts(paths@);
    let mut i: usize = 0;
    while i < paths.len()
        invariant
            i <= paths@.len(),
            all == text::texts(paths@),
            into.wf(),
            forall|key: Seq<char>| #[trigger]
                into@.contains(key) <==> start.contains(key) || (all.take(i as int).contains(key)
                    && answers.matches(text::texts(targets@), key) && !(kept_out matches Some(
                    patterns,
                ) && answers.matches(text::texts(patterns@), key))),
        decreases paths@.len() - i,
    {
        let path = paths[i].as_str();
        proof {
            lemma_take_one_more(all, i as int);
            assert(all[i as int] == path@);
        }
        let is_kept_out = match kept_out {
            Some(patterns) => answers.matches_any(patterns, path),
            None => false,
        };
        if !is_kept_out && answers.matches_any(targets, path) {
            into.insert(path.to_owned());
        }
        i += 1;
    }
    assert(all.take(i as int) =~= all);
}

/// A package trigger against the transaction.
fn match_packages(trigger: &Trigger, answers: &Answers, summary: &Summary) -> (r: Matches)
    requires
        trigger.kind != Some(TriggerKind::Path),
    ensures
        r.of(trigger@, *answers, *summary),
{
    let mut install = TextSet::new();
    let mut upgrade = TextSet::new();
    let mut remove = TextSet::new();
    let ghost targets = text::texts(trigger.targets@);
    let mut i: usize = 0;
    while i < summary.added.len()
        invariant
            i <= summary.added@.len(),
            targets == text::texts(trigger.targets@),
            install.wf(),
            upgrade.wf(),
            forall|key: Seq<char>| #[trigger]
                install@.contains(key) <==> answers.matches(targets, key) && (exists|k: int|
                    0 <= k < i && (#[trigger] summary.added@[k]).name@ == key
                        && !summary.added@[k].replaces_installed),
            forall|key: Seq<char>| #[trigger]
                upgrade@.contains(key) <==> answers.matches(targets, key) && (exists|k: int|
                    0 <= k < i && (#[trigger] summary.added@[k]).name@ == key
                        && summary.added@[k].replaces_installed),
        decreases summary.added@.len() - i,
    {
        let added = &summary.added[i];
        assert(summary.added@[i as int] == *added);
        if answers.matches_any(&trigger.targets, added.name.as_str()) {
            if added.replaces_installed {
                upgrade.insert(added.name.clone());
            } else {
                install.insert(added.name.clone());
            }
        }
        i += 1;
    }
    let mut j: usize = 0;
    while j < summary.removed.len()
        invariant
            j <= summary.removed@.len(),
            targets == text::texts(trigger.targets@),
            remove.wf(),
            forall|key: Seq<char>| #[trigger]
                remove@.contains(key) <==> answers.matches(targets, key) && !summary.adds(
                    key,
                    false,
                ) && !summary.adds(key, true) && (exists|k: int|
                    0 <= k < j && (#[trigger] summary.removed@[k]).name@ == key),
        decreases summary.removed@.len() - j,
    {
        let removed = &summary.removed[j];
        assert(summary.removed@[j as int] == *removed);
        if answers.matches_any(&trigger.targets, removed.name.as_str()) {
            if !is_added(summary, removed.name.as_str()) {
                remove.insert(removed.name.clone());
            }
        }
        j += 1;
    }
    Matches { install, upgrade, remove }
}

/// Whether a package of this name is added.
fn is_added(summary: &Summary, name: &str) -> (r: bool)
    ensures
        r == (summary.adds(name@, false) || summary.adds(name@, true)),
{
    let mut i: usize = 0;
    while i < summary.added.len()
        invariant
            i <= summary.added@.len(),
            forall|k: int| 0 <= k < i ==> (#[trigger] summary.added@[k]).name@ != name@,
        decreases summary.added@.len() - i,
    {
        if text::same(summary.added[i].name.as_str(), name) {
            assert(summary.added@[i as int].name@ == name@);
            return true;
        }
        i += 1;
    }
    false
}

/// A path trigger against the transaction.
///
/// The lists are built first and intersected afterward, rather than deciding per file: the two
/// halves come from different packages when a file changes hands.
fn match_paths(trigger: &Trigger, answers: &Answers, summary: &Summary) -> (r: Matches)
    requires
        trigger.kind == Some(TriggerKind::Path),
    ensures
        r.of(trigger@, *answers, *summary),
{
    let mut written = TextSet::new();
    let mut taken = TextSet::new();
    let ghost targets = text::texts(trigger.targets@);
    let ghost kept_out = text::texts(summary.no_extract@);
    let mut i: usize = 0;
    while i < summary.added.len()
        invariant
            i <= summary.added@.len(),
            targets == text::texts(trigger.targets@),
            kept_out == text::texts(summary.no_extract@),
            written.wf(),
            taken.wf(),
            forall|key: Seq<char>| #[trigger]
                written@.contains(key) <==> answers.matches(targets, key)
                    && !answers.matches(kept_out, key) && (exists|k: int|
                    0 <= k < i && text::texts((#[trigger] summary.added@[k]).files@).contains(key)),
            forall|key: Seq<char>| #[trigger]
                taken@.contains(key) <==> answers.matches(targets, key) && (exists|k: int|
                    0 <= k < i && text::texts((#[trigger] summary.added@[k]).old_files@).contains(
                        key,
                    )),
        decreases summary.added@.len() - i,
    {
        let added = &summary.added[i];
        assert(summary.added@[i as int] == *added);
        gather(
            &mut written,
            &added.files,
            &trigger.targets,
            Some(&summary.no_extract),
            answers,
        );
        // What the replaced version owns is deleted, not written, so nothing is kept out of it.
        gather(&mut taken, &added.old_files, &trigger.targets, None, answers);
        i += 1;
    }
    let mut j: usize = 0;
    while j < summary.removed.len()
        invariant
            j <= summary.removed@.len(),
            targets == text::texts(trigger.targets@),
            taken.wf(),
            forall|key: Seq<char>| #[trigger]
                taken@.contains(key) <==> answers.matches(targets, key) && (owned_before(
                    summary.added@,
                    key,
                ) || (exists|k: int|
                    0 <= k < j && text::texts((#[trigger] summary.removed@[k]).files@).contains(
                        key,
                    ))),
        decreases summary.removed@.len() - j,
    {
        let removed = &summary.removed[j];
        assert(summary.removed@[j as int] == *removed);
        gather(&mut taken, &removed.files, &trigger.targets, None, answers);
        j += 1;
    }
    let (both, install) = part(&written, &taken);
    let (_, remove) = part(&taken, &written);
    Matches { install, upgrade: both, remove }
}

/// The texts of a set that are in another, and those that are not.
fn part(of: &TextSet, by: &TextSet) -> (r: (TextSet, TextSet))
    ensures
        r.0.wf(),
        r.1.wf(),
        forall|key: Seq<char>| #[trigger]
            r.0@.contains(key) <==> of@.contains(key) && by@.contains(key),
        forall|key: Seq<char>| #[trigger]
            r.1@.contains(key) <==> of@.contains(key) && !by@.contains(key),
{
    let mut inside = TextSet::new();
    let mut outside = TextSet::new();
    let mut i: usize = 0;
    while i < of.len()
        invariant
            i <= of@.len(),
            inside.wf(),
            outside.wf(),
            forall|key: Seq<char>| #[trigger]
                inside@.contains(key) <==> of@.take(i as int).contains(key) && by@.contains(key),
            forall|key: Seq<char>| #[trigger]
                outside@.contains(key) <==> of@.take(i as int).contains(key) && !by@.contains(key),
        decreases of@.len() - i,
    {
        let item = of.get(i);
        proof {
            lemma_take_one_more(of@, i as int);
        }
        if by.contains(item) {
            inside.insert(item.to_owned());
        } else {
            outside.insert(item.to_owned());
        }
        i += 1;
    }
    assert(of@.take(i as int) =~= of@);
    (inside, outside)
}

/// One trigger against the transaction.
fn match_trigger(trigger: &Trigger, answers: &Answers, summary: &Summary) -> (r: Matches)
    ensures
        r.of(trigger@, *answers, *summary),
{
    match trigger.kind {
        Some(TriggerKind::Path) => match_paths(trigger, answers, summary),
        _ => match_packages(trigger, answers, summary),
    }
}

/// Whether `hook` fires for `summary`, and the sorted targets it matched, given what its patterns
/// match.
///
/// The target list is empty unless the hook sets `NeedsTargets`. A hook fires if any of its
/// triggers does. With `NeedsTargets` every trigger is still evaluated after one has matched,
/// because their target lists are joined.
pub fn triggered(hook: &Hook, answers: &Answers, summary: &Summary) -> (r: Option<Vec<String>>)
    ensures
        r is Some <==> fires(hook@, *answers, *summary),
        r matches Some(targets) ==> is_target_list(hook@, *answers, *summary, text::texts(targets@)),
{
    let mut fired = false;
    let mut targets = TextSet::new();
    let ghost triggers = hook@.triggers;
    let mut i: usize = 0;
    while i < hook.triggers.len()
        invariant
            i <= hook.triggers@.len(),
            triggers == hook@.triggers,
            targets.wf(),
            fired == any_fires(triggers, i as int, *answers, *summary),
            fired ==> hook.needs_targets,
            forall|key: Seq<char>| #[trigger]
                targets@.contains(key) <==> any_selects(triggers, i as int, *answers, *summary, key),
        decreases hook.triggers@.len() - i,
    {
        let trigger = &hook.triggers[i];
        let found = match_trigger(trigger, answers, summary);
        let ghost before = targets@;
        proof {
            assert(triggers[i as int] == trigger@);
            lemma_fires(found, trigger@, *answers, *summary);
            lemma_one_more_trigger(triggers, i as int, *answers, *summary);
        }
        if found.fires(trigger.operations) {
            fired = true;
            if !hook.needs_targets {
                proof {
                    lemma_fires_at(triggers, i as int, *answers, *summary);
                }
                let empty: Vec<String> = Vec::new();
                return Some(empty);
            }
            found.selected(trigger.operations, &mut targets);
        }
        i += 1;
    }
    if fired {
        let list = text::copied(targets.iter());
        Some(list)
    } else {
        None
    }
}

/// A trigger fires where one of the sets it asks for holds anything.
proof fn lemma_fires(found: Matches, trigger: TriggerView, answers: Answers, summary: Summary)
    requires
        found.of(trigger, answers, summary),
    ensures
        trigger_fires(trigger, answers, summary) <==> ((trigger.operations.install && found.install@.len()
            > 0) || (trigger.operations.upgrade && found.upgrade@.len() > 0) || (
        trigger.operations.remove && found.remove@.len() > 0)),
        forall|key: Seq<char>| #[trigger]
            selects(trigger, answers, summary, key) <==> ((trigger.operations.install
                && found.install@.contains(key)) || (trigger.operations.upgrade
                && found.upgrade@.contains(key)) || (trigger.operations.remove
                && found.remove@.contains(key))),
{
    if found.install@.len() > 0 {
        assert(found.install@.contains(found.install@[0]));
    }
    if found.upgrade@.len() > 0 {
        assert(found.upgrade@.contains(found.upgrade@[0]));
    }
    if found.remove@.len() > 0 {
        assert(found.remove@.contains(found.remove@[0]));
    }
    if trigger.operations.install && found.install@.len() > 0 {
        assert(selects(trigger, answers, summary, found.install@[0]));
    }
    if trigger.operations.upgrade && found.upgrade@.len() > 0 {
        assert(selects(trigger, answers, summary, found.upgrade@[0]));
    }
    if trigger.operations.remove && found.remove@.len() > 0 {
        assert(selects(trigger, answers, summary, found.remove@[0]));
    }
    if trigger_fires(trigger, answers, summary) {
        let key = choose|key: Seq<char>| selects(trigger, answers, summary, key);
        assert((trigger.operations.install && found.install@.contains(key)) || (
        trigger.operations.upgrade && found.upgrade@.contains(key)) || (trigger.operations.remove
            && found.remove@.contains(key)));
    }
}

/// What one more trigger adds.
proof fn lemma_one_more_trigger(
    triggers: Seq<TriggerView>,
    n: int,
    answers: Answers,
    summary: Summary,
)
    requires
        0 <= n < triggers.len(),
    ensures
        any_fires(triggers, n + 1, answers, summary) <==> any_fires(triggers, n, answers, summary) || trigger_fires(
            triggers[n],
            answers,
            summary,
        ),
        forall|key: Seq<char>| #[trigger]
            any_selects(triggers, n + 1, answers, summary, key) <==> any_selects(triggers, n, answers, summary, key)
                || selects(triggers[n], answers, summary, key),
{
}

/// A trigger that fires sets the hook off.
proof fn lemma_fires_at(
    triggers: Seq<TriggerView>,
    n: int,
    answers: Answers,
    summary: Summary,
)
    requires
        0 <= n < triggers.len(),
        trigger_fires(triggers[n], answers, summary),
    ensures
        any_fires(triggers, triggers.len() as int, answers, summary),
{
}

// ---------------------------------------------------------------------------------------------
// Laws

/// What a path trigger matches falls into exactly one of the three sets.
pub proof fn a_path_is_matched_once(
    trigger: TriggerView,
    answers: Answers,
    summary: Summary,
    key: Seq<char>,
)
    requires
        trigger.kind == Some(TriggerKind::Path),
    ensures
        !(installs(trigger, answers, summary, key) && upgrades(trigger, answers, summary, key)),
        !(installs(trigger, answers, summary, key) && loses(trigger, answers, summary, key)),
        !(upgrades(trigger, answers, summary, key) && loses(trigger, answers, summary, key)),
        (installs(trigger, answers, summary, key) || upgrades(trigger, answers, summary, key) || loses(
            trigger,
            answers,
            summary,
            key,
        )) <==> answers.matches(trigger.targets, key) && (summary.writes(answers, key)
            || summary.takes(key)),
{
}

/// An upgraded package is never one that goes away.
pub proof fn an_upgrade_removes_no_package(
    trigger: TriggerView,
    answers: Answers,
    summary: Summary,
    key: Seq<char>,
)
    requires
        trigger.kind != Some(TriggerKind::Path),
        summary.adds(key, true) || summary.adds(key, false),
    ensures
        !loses(trigger, answers, summary, key),
{
}

/// A path that `NoExtract` keeps out is never one that appears or is replaced.
pub proof fn a_path_kept_out_is_never_written(
    trigger: TriggerView,
    answers: Answers,
    summary: Summary,
    key: Seq<char>,
)
    requires
        trigger.kind == Some(TriggerKind::Path),
        answers.matches(text::texts(summary.no_extract@), key),
    ensures
        !installs(trigger, answers, summary, key),
        !upgrades(trigger, answers, summary, key),
{
}

/// A hook is given one list of targets and no other.
pub proof fn targets_are_determined(
    hook: HookView,
    answers: Answers,
    summary: Summary,
    a: Seq<Seq<char>>,
    b: Seq<Seq<char>>,
)
    requires
        is_target_list(hook, answers, summary, a),
        is_target_list(hook, answers, summary, b),
    ensures
        a == b,
{
    if hook.needs_targets {
        table::lemma_same_members(a, b);
    } else {
        assert(a =~= b);
    }
}

/// Whether a summary speaks of a name or a path.
pub open spec fn mentions(summary: Summary, key: Seq<char>) -> bool {
    ||| summary.adds(key, false)
    ||| summary.adds(key, true)
    ||| summary.removes(key)
    ||| ships(summary.added@, key)
    ||| summary.takes(key)
}

/// What patterns match beyond the names and paths of a transaction does not matter: two answers
/// that agree on those set off the same hooks with the same targets.
pub proof fn only_the_transaction_is_asked_about(
    hook: HookView,
    a: Answers,
    b: Answers,
    summary: Summary,
    targets: Seq<Seq<char>>,
)
    requires
        forall|patterns: Seq<Seq<char>>, key: Seq<char>|
            mentions(summary, key) ==> #[trigger] a.matches(patterns, key) == b.matches(
                patterns,
                key,
            ),
    ensures
        fires(hook, a, summary) == fires(hook, b, summary),
        is_target_list(hook, a, summary, targets) == is_target_list(hook, b, summary, targets),
{
    let triggers = hook.triggers;
    let n = triggers.len() as int;
    assert forall|t: TriggerView, key: Seq<char>| #[trigger]
        selects(t, a, summary, key) == selects(t, b, summary, key) by {
        assert(mentions(summary, key) ==> a.matches(t.targets, key) == b.matches(t.targets, key));
        let kept_out = text::texts(summary.no_extract@);
        assert(mentions(summary, key) ==> a.matches(kept_out, key) == b.matches(kept_out, key));
    }
    assert forall|t: TriggerView| #[trigger] trigger_fires(t, a, summary) == trigger_fires(
        t,
        b,
        summary,
    ) by {
        if trigger_fires(t, a, summary) {
            let key = choose|key: Seq<char>| selects(t, a, summary, key);
            assert(selects(t, b, summary, key));
        }
        if trigger_fires(t, b, summary) {
            let key = choose|key: Seq<char>| selects(t, b, summary, key);
            assert(selects(t, a, summary, key));
        }
    }
    assert forall|key: Seq<char>| #[trigger] any_selects(triggers, n, a, summary, key)
        == any_selects(triggers, n, b, summary, key) by {
        if any_selects(triggers, n, a, summary, key) {
            let t = choose|t: int| 0 <= t < n && selects(#[trigger] triggers[t], a, summary, key);
            assert(selects(triggers[t], b, summary, key));
        }
        if any_selects(triggers, n, b, summary, key) {
            let t = choose|t: int| 0 <= t < n && selects(#[trigger] triggers[t], b, summary, key);
            assert(selects(triggers[t], a, summary, key));
        }
    }
}

} // verus!
