//! Parses one `.hook` file.
//!
//! # A hook with no triggers is valid and does nothing
//!
//! A hook is disabled by shadowing it with a symlink to `/dev/null` in a directory of higher
//! priority. The symlink reads as an empty file: a hook with no triggers, no `Exec` and no `When`.
//! It never matches any transaction while it still occupies its name, so it is accepted.

use vstd::prelude::*;

use super::ini;
use super::ini::{Line, LineView};
use super::wordsplit;
use crate::text;

verus! {

broadcast use crate::text::group_lists;

/// When a hook runs.
#[derive(Clone, Copy, Debug, Eq, PartialEq, Structural)]
pub enum When {
    /// Before the transaction's first change.
    PreTransaction,
    /// After the transaction's last change.
    PostTransaction,
}

/// Whether a trigger matches package names or archive paths.
#[derive(Clone, Copy, Debug, Eq, PartialEq, Structural)]
pub enum TriggerKind {
    /// `Type = Package`.
    Package,
    /// `Type = Path`.
    Path,
}

/// Which kinds of change a trigger reacts to: a set, since the only question ever asked of it is
/// membership.
#[derive(Clone, Copy, Debug, Eq, PartialEq, Structural)]
pub struct Operations {
    /// A package or path appearing where there was none.
    pub install: bool,
    /// A package or path replacing an existing one.
    pub upgrade: bool,
    /// A package or path going away.
    pub remove: bool,
}

impl Operations {
    /// A package or path appearing where there was none.
    pub open spec fn spec_install() -> Self {
        Operations { install: true, upgrade: false, remove: false }
    }

    /// A package or path replacing an existing one.
    pub open spec fn spec_upgrade() -> Self {
        Operations { install: false, upgrade: true, remove: false }
    }

    /// A package or path going away.
    pub open spec fn spec_remove() -> Self {
        Operations { install: false, upgrade: false, remove: true }
    }

    /// No operation.
    pub open spec fn spec_none() -> Self {
        Operations { install: false, upgrade: false, remove: false }
    }

    /// A package or path appearing where there was none.
    pub fn install() -> (r: Self)
        ensures
            r == Self::spec_install(),
    {
        Operations { install: true, upgrade: false, remove: false }
    }

    /// A package or path replacing an existing one.
    pub fn upgrade() -> (r: Self)
        ensures
            r == Self::spec_upgrade(),
    {
        Operations { install: false, upgrade: true, remove: false }
    }

    /// A package or path going away.
    pub fn remove() -> (r: Self)
        ensures
            r == Self::spec_remove(),
    {
        Operations { install: false, upgrade: false, remove: true }
    }

    /// Whether every operation of `other` is named here.
    pub open spec fn spec_contains(self, other: Self) -> bool {
        (other.install ==> self.install) && (other.upgrade ==> self.upgrade) && (other.remove
            ==> self.remove)
    }

    /// Whether every operation of `other` is named here.
    pub fn contains(self, other: Self) -> (r: bool)
        ensures
            r == self.spec_contains(other),
    {
        (self.install || !other.install) && (self.upgrade || !other.upgrade) && (self.remove
            || !other.remove)
    }

    /// Whether no operation was named at all.
    pub fn is_empty(self) -> (r: bool)
        ensures
            r == (self == Self::spec_none()),
    {
        !self.install && !self.upgrade && !self.remove
    }

    /// The operations named here or in `other`.
    pub open spec fn spec_union(self, other: Self) -> Self {
        Operations {
            install: self.install || other.install,
            upgrade: self.upgrade || other.upgrade,
            remove: self.remove || other.remove,
        }
    }

    /// The operations named here or in `other`.
    pub fn union(self, other: Self) -> (r: Self)
        ensures
            r == self.spec_union(other),
    {
        Operations {
            install: self.install || other.install,
            upgrade: self.upgrade || other.upgrade,
            remove: self.remove || other.remove,
        }
    }
}

impl Default for Operations {
    fn default() -> (r: Self)
        ensures
            r == Self::spec_none(),
    {
        Operations { install: false, upgrade: false, remove: false }
    }
}

/// One `[Trigger]` section.
#[derive(Clone, Debug, Eq, PartialEq)]
pub struct Trigger {
    /// The `Operation` lines, combined.
    pub operations: Operations,
    /// The `Type` line. `None` until one is seen, which validation then refuses.
    pub kind: Option<TriggerKind>,
    /// The `Target` lines, in file order. Order matters: the last one that matches decides.
    pub targets: Vec<String>,
}

/// What a [`Trigger`] holds.
pub struct TriggerView {
    /// The `Operation` lines, combined.
    pub operations: Operations,
    /// The `Type` line.
    pub kind: Option<TriggerKind>,
    /// The `Target` lines.
    pub targets: Seq<Seq<char>>,
}

impl View for Trigger {
    type V = TriggerView;

    open spec fn view(&self) -> TriggerView {
        TriggerView {
            operations: self.operations,
            kind: self.kind,
            targets: text::texts(self.targets@),
        }
    }
}

/// The views of a list of triggers.
pub open spec fn trigger_views(list: Seq<Trigger>) -> Seq<TriggerView> {
    Seq::new(list.len(), |i: int| list[i]@)
}

/// A parsed hook file.
#[derive(Clone, Debug)]
pub struct Hook {
    /// The file name, including the `.hook` suffix. This is its identity for overriding.
    pub name: String,
    /// `Description`, shown while the hook runs.
    pub description: Option<String>,
    /// Every `[Trigger]` section, in file order.
    pub triggers: Vec<Trigger>,
    /// `Depends` lines: packages that must be installed for the hook to run.
    pub depends: Vec<String>,
    /// `Exec`, already split into a program and its arguments.
    pub command: Vec<String>,
    /// `When`. `None` only for a triggerless masking hook, which never runs.
    pub when: Option<When>,
    /// `AbortOnFail`: a non-zero exit stops the transaction. `PreTransaction` only.
    pub abort_on_fail: bool,
    /// `NeedsTargets`: the matched targets are fed to the command on stdin.
    pub needs_targets: bool,
}

/// What a [`Hook`] holds.
pub struct HookView {
    /// The file name.
    pub name: Seq<char>,
    /// `Description`.
    pub description: Option<Seq<char>>,
    /// Every `[Trigger]` section.
    pub triggers: Seq<TriggerView>,
    /// `Depends` lines.
    pub depends: Seq<Seq<char>>,
    /// `Exec`.
    pub command: Seq<Seq<char>>,
    /// `When`.
    pub when: Option<When>,
    /// `AbortOnFail`.
    pub abort_on_fail: bool,
    /// `NeedsTargets`.
    pub needs_targets: bool,
}

impl View for Hook {
    type V = HookView;

    open spec fn view(&self) -> HookView {
        HookView {
            name: self.name@,
            description: text::maybe(self.description),
            triggers: trigger_views(self.triggers@),
            depends: text::texts(self.depends@),
            command: text::texts(self.command@),
            when: self.when,
            abort_on_fail: self.abort_on_fail,
            needs_targets: self.needs_targets,
        }
    }
}

impl HookView {
    /// A hook that says nothing but its name.
    pub open spec fn blank(name: Seq<char>) -> HookView {
        HookView {
            name,
            description: None,
            triggers: Seq::empty(),
            depends: Seq::empty(),
            command: Seq::empty(),
            when: None,
            abort_on_fail: false,
            needs_targets: false,
        }
    }

    /// Whether this hook can ever run.
    pub open spec fn active(self) -> bool {
        self.triggers.len() > 0 && self.when is Some && self.command.len() > 0
    }
}

impl Hook {
    /// Whether this hook can ever run.
    ///
    /// This is false for a masking hook: one whose only job is to occupy a name so a lower
    /// priority directory's hook of the same name does not load.
    pub fn is_active(&self) -> (r: bool)
        ensures
            r == self@.active(),
    {
        self.triggers.len() > 0 && self.when.is_some() && self.command.len() > 0
    }
}

/// Why a `.hook` file was rejected.
#[derive(Clone, Debug)]
pub struct ParseError {
    /// The hook file's name.
    pub file: String,
    /// What was wrong with it.
    pub reason: String,
}

impl ParseError {
    /// The words for the error.
    pub fn message(&self) -> (r: String)
        ensures
            r@ == self.file@ + ": "@ + self.reason@,
    {
        let mut out = String::new();
        out.push_str(self.file.as_str());
        out.push_str(": ");
        out.push_str(self.reason.as_str());
        assert(Seq::<char>::empty() + self.file@ =~= self.file@);
        out
    }
}

/// Which section directives are being read into.
#[derive(Clone, Copy, Debug, Eq, PartialEq, Structural)]
pub enum Section {
    /// The last `[Trigger]`.
    Trigger,
    /// `[Action]`.
    Action,
}

// ---------------------------------------------------------------------------------------------
// What the lines of a hook file say

/// The operation that a value names.
pub open spec fn operation_of(value: Seq<char>) -> Option<Operations> {
    if value == "Install"@ {
        Some(Operations::spec_install())
    } else if value == "Upgrade"@ {
        Some(Operations::spec_upgrade())
    } else if value == "Remove"@ {
        Some(Operations::spec_remove())
    } else {
        None
    }
}

/// The kind of trigger that a value names. `File` is a deprecated spelling of `Path`.
pub open spec fn kind_of(value: Seq<char>) -> Option<TriggerKind> {
    if value == "Package"@ {
        Some(TriggerKind::Package)
    } else if value == "Path"@ || value == "File"@ {
        Some(TriggerKind::Path)
    } else {
        None
    }
}

/// The time that a value names.
pub open spec fn when_of(value: Seq<char>) -> Option<When> {
    if value == "PreTransaction"@ {
        Some(When::PreTransaction)
    } else if value == "PostTransaction"@ {
        Some(When::PostTransaction)
    } else {
        None
    }
}

/// A trigger after one directive of its section, or why the directive is refused.
pub open spec fn triggered_by(trigger: TriggerView, key: Seq<char>, value: Seq<char>) -> Result<
    TriggerView,
    Seq<char>,
> {
    if key == "Operation"@ {
        match operation_of(value) {
            Some(operation) => Ok(
                TriggerView { operations: trigger.operations.spec_union(operation), ..trigger },
            ),
            None => Err("invalid value "@ + value),
        }
    } else if key == "Type"@ {
        match kind_of(value) {
            Some(kind) => Ok(TriggerView { kind: Some(kind), ..trigger }),
            None => Err("invalid value "@ + value),
        }
    } else if key == "Target"@ {
        Ok(TriggerView { targets: trigger.targets.push(value), ..trigger })
    } else {
        Err("invalid option "@ + key)
    }
}

/// A hook after one directive of `[Action]`, or why the directive is refused.
pub open spec fn acting_by(hook: HookView, key: Seq<char>, value: Seq<char>) -> Result<
    HookView,
    Seq<char>,
> {
    if key == "When"@ {
        match when_of(value) {
            Some(when) => Ok(HookView { when: Some(when), ..hook }),
            None => Err("invalid value "@ + value),
        }
    } else if key == "Description"@ {
        Ok(HookView { description: Some(value), ..hook })
    } else if key == "Depends"@ {
        Ok(HookView { depends: hook.depends.push(value), ..hook })
    } else if key == "AbortOnFail"@ {
        Ok(HookView { abort_on_fail: true, ..hook })
    } else if key == "NeedsTargets"@ {
        Ok(HookView { needs_targets: true, ..hook })
    } else if key == "Exec"@ {
        match wordsplit::split_of(value) {
            Ok(words) => Ok(HookView { command: words, ..hook }),
            Err(error) => Err("invalid value: "@ + error.words()),
        }
    } else {
        Err("invalid option "@ + key)
    }
}

/// A hook after one line, and the section that the next one belongs to, or why the line is
/// refused.
pub open spec fn after_line(hook: HookView, section: Option<Section>, line: LineView) -> Result<
    (HookView, Option<Section>),
    Seq<char>,
> {
    match line {
        LineView::Section { name } => if name == "Trigger"@ {
            let blank = TriggerView {
                operations: Operations::spec_none(),
                kind: None,
                targets: Seq::empty(),
            };
            Ok((HookView { triggers: hook.triggers.push(blank), ..hook }, Some(Section::Trigger)))
        } else if name == "Action"@ {
            Ok((hook, Some(Section::Action)))
        } else {
            Err("invalid section "@ + name)
        },
        LineView::Directive { key, value } => {
            let given = match value {
                Some(value) => value,
                None => Seq::empty(),
            };
            match section {
                None => Err("invalid option "@ + key),
                Some(Section::Trigger) => if hook.triggers.len() == 0 {
                    Err("a trigger directive with no [Trigger]"@)
                } else {
                    match triggered_by(hook.triggers.last(), key, given) {
                        Ok(trigger) => Ok(
                            (
                                HookView {
                                    triggers: hook.triggers.drop_last().push(trigger),
                                    ..hook
                                },
                                section,
                            ),
                        ),
                        Err(reason) => Err(reason),
                    }
                },
                Some(Section::Action) => match acting_by(hook, key, given) {
                    Ok(hook) => Ok((hook, section)),
                    Err(reason) => Err(reason),
                },
            }
        },
    }
}

/// A hook after the lines of its file, in order, or why the first line that is refused is
/// refused.
pub open spec fn after_lines(name: Seq<char>, lines: Seq<Seq<char>>) -> Result<
    (HookView, Option<Section>),
    Seq<char>,
>
    decreases lines.len(),
{
    if lines.len() == 0 {
        Ok((HookView::blank(name), None))
    } else {
        match after_lines(name, lines.drop_last()) {
            Ok((hook, section)) => match ini::line_of(lines.last()) {
                None => Ok((hook, section)),
                Some(line) => match after_line(hook, section, line) {
                    Ok(next) => Ok(next),
                    Err(reason) => Err("line "@ + text::dec(lines.len()) + ": "@ + reason),
                },
            },
            Err(reason) => Err(reason),
        }
    }
}

/// What the trigger at `i`, counted from 0, lacks.
pub open spec fn lacking(trigger: TriggerView, i: int) -> Option<Seq<char>> {
    if trigger.targets.len() == 0 {
        Some("trigger "@ + text::dec((i + 1) as nat) + " has no Target"@)
    } else if trigger.kind is None {
        Some("trigger "@ + text::dec((i + 1) as nat) + " has no Type"@)
    } else if trigger.operations == Operations::spec_none() {
        Some("trigger "@ + text::dec((i + 1) as nat) + " has no Operation"@)
    } else {
        None
    }
}

/// What the first trigger from `i` on that lacks anything lacks.
pub open spec fn first_lacking(triggers: Seq<TriggerView>, i: int) -> Option<Seq<char>>
    decreases triggers.len() - i,
{
    if i >= triggers.len() {
        None
    } else if lacking(triggers[i], i) is Some {
        lacking(triggers[i], i)
    } else {
        first_lacking(triggers, i + 1)
    }
}

/// Why a hook cannot run, where it cannot. One without triggers is complete as it stands.
pub open spec fn flaw(hook: HookView) -> Option<Seq<char>> {
    if hook.triggers.len() == 0 {
        None
    } else if first_lacking(hook.triggers, 0) is Some {
        first_lacking(hook.triggers, 0)
    } else if hook.command.len() == 0 {
        Some("it has no Exec"@)
    } else if hook.when is None {
        Some("it has no When"@)
    } else {
        None
    }
}

/// The hook that a file holds, or why there is none.
pub open spec fn hook_of(name: Seq<char>, s: Seq<char>) -> Result<HookView, Seq<char>> {
    match after_lines(name, text::lines(s)) {
        Ok((hook, _)) => match flaw(hook) {
            None => Ok(hook),
            Some(reason) => Err(reason),
        },
        Err(reason) => Err(reason),
    }
}

// ---------------------------------------------------------------------------------------------
// Reading

/// A text after another.
fn with(prefix: &str, rest: &str) -> (r: String)
    ensures
        r@ == prefix@ + rest@,
{
    let mut out = prefix.to_owned();
    out.push_str(rest);
    out
}

/// One directive inside `[Trigger]`.
fn trigger_directive(trigger: &mut Trigger, key: &str, value: String) -> (r: Result<(), String>)
    ensures
        match triggered_by(old(trigger)@, key@, value@) {
            Ok(after) => r is Ok && final(trigger)@ == after,
            Err(reason) => r is Err && r->Err_0@ == reason,
        },
{
    let given = value.as_str();
    if text::same(key, "Operation") {
        let operation = if text::same(given, "Install") {
            Operations::install()
        } else if text::same(given, "Upgrade") {
            Operations::upgrade()
        } else if text::same(given, "Remove") {
            Operations::remove()
        } else {
            return Err(with("invalid value ", given));
        };
        trigger.operations = trigger.operations.union(operation);
    } else if text::same(key, "Type") {
        let kind = if text::same(given, "Package") {
            TriggerKind::Package
        } else if text::same(given, "Path") || text::same(given, "File") {
            TriggerKind::Path
        } else {
            return Err(with("invalid value ", given));
        };
        trigger.kind = Some(kind);
    } else if text::same(key, "Target") {
        trigger.targets.push(value);
    } else {
        return Err(with("invalid option ", key));
    }
    Ok(())
}

/// One directive inside `[Action]`.
fn action_directive(hook: &mut Hook, key: &str, value: String) -> (r: Result<(), String>)
    ensures
        match acting_by(old(hook)@, key@, value@) {
            Ok(after) => r is Ok && final(hook)@ == after,
            Err(reason) => r is Err && r->Err_0@ == reason,
        },
{
    let given = value.as_str();
    if text::same(key, "When") {
        let when = if text::same(given, "PreTransaction") {
            When::PreTransaction
        } else if text::same(given, "PostTransaction") {
            When::PostTransaction
        } else {
            return Err(with("invalid value ", given));
        };
        hook.when = Some(when);
    } else if text::same(key, "Description") {
        hook.description = Some(value);
    } else if text::same(key, "Depends") {
        hook.depends.push(value);
    } else if text::same(key, "AbortOnFail") {
        hook.abort_on_fail = true;
    } else if text::same(key, "NeedsTargets") {
        hook.needs_targets = true;
    } else if text::same(key, "Exec") {
        match wordsplit::split(given) {
            Ok(words) => {
                hook.command = words;
            },
            Err(error) => {
                return Err(with("invalid value: ", error.message().as_str()));
            },
        }
    } else {
        return Err(with("invalid option ", key));
    }
    Ok(())
}

/// One line of a hook file.
fn read_line(hook: &mut Hook, section: &mut Option<Section>, line: Line) -> (r: Result<(), String>)
    ensures
        match after_line(old(hook)@, *old(section), line@) {
            Ok((after, next)) => r is Ok && final(hook)@ == after && *final(section) == next,
            Err(reason) => r is Err && r->Err_0@ == reason,
        },
{
    match line {
        Line::Section { name } => {
            if text::same(name.as_str(), "Trigger") {
                let ghost was = hook.triggers@;
                let blank = Trigger {
                    operations: Operations::default(),
                    kind: None,
                    targets: Vec::new(),
                };
                let ghost view = blank@;
                assert(text::texts(blank.targets@) =~= Seq::<Seq<char>>::empty());
                hook.triggers.push(blank);
                *section = Some(Section::Trigger);
                assert(trigger_views(hook.triggers@) =~= trigger_views(was).push(view));
            } else if text::same(name.as_str(), "Action") {
                *section = Some(Section::Action);
            } else {
                return Err(with("invalid section ", name.as_str()));
            }
        },
        Line::Directive { key, value } => {
            let given = match value {
                Some(value) => value,
                None => {
                    let none = String::new();
                    assert(none@ =~= Seq::<char>::empty());
                    none
                },
            };
            match *section {
                None => {
                    return Err(with("invalid option ", key.as_str()));
                },
                Some(Section::Trigger) => {
                    let ghost was = hook.triggers@;
                    match hook.triggers.pop() {
                        None => {
                            return Err("a trigger directive with no [Trigger]".to_owned());
                        },
                        Some(last) => {
                            let mut trigger = last;
                            assert(trigger@ == trigger_views(was).last());
                            match trigger_directive(&mut trigger, key.as_str(), given) {
                                Ok(()) => {
                                    let ghost view = trigger@;
                                    hook.triggers.push(trigger);
                                    assert(trigger_views(hook.triggers@) =~= trigger_views(
                                        was,
                                    ).drop_last().push(view));
                                },
                                Err(reason) => {
                                    return Err(reason);
                                },
                            }
                        },
                    }
                },
                Some(Section::Action) => {
                    return action_directive(hook, key.as_str(), given);
                },
            }
        },
    }
    Ok(())
}

/// What one trigger lacks.
fn missing(trigger: &Trigger, position: u64) -> (r: Option<String>)
    requires
        position > 0,
    ensures
        text::maybe(r) == lacking(trigger@, position - 1),
{
    let what = if trigger.targets.len() == 0 {
        " has no Target"
    } else if trigger.kind.is_none() {
        " has no Type"
    } else if trigger.operations.is_empty() {
        " has no Operation"
    } else {
        return None;
    };
    let mut reason = "trigger ".to_owned();
    text::push_decimal(&mut reason, position);
    reason.push_str(what);
    Some(reason)
}

/// Whether a hook is complete.
fn validate(hook: &Hook) -> (r: Result<(), String>)
    ensures
        match flaw(hook@) {
            None => r is Ok,
            Some(reason) => r is Err && r->Err_0@ == reason,
        },
{
    if hook.triggers.len() == 0 {
        return Ok(());
    }
    let mut i: usize = 0;
    while i < hook.triggers.len()
        invariant
            i <= hook.triggers.len(),
            hook.triggers.len() > 0,
            first_lacking(hook@.triggers, 0) == first_lacking(hook@.triggers, i as int),
        decreases hook.triggers.len() - i,
    {
        assert(hook@.triggers[i as int] == hook.triggers@[i as int]@);
        if let Some(reason) = missing(&hook.triggers[i], i as u64 + 1) {
            return Err(reason);
        }
        i += 1;
    }
    if hook.command.len() == 0 {
        return Err("it has no Exec".to_owned());
    }
    match hook.when {
        None => Err("it has no When".to_owned()),
        Some(_) => Ok(()),
    }
}

/// Parses `contents` as the hook file called `name`.
///
/// It is refused for an unknown section or option, an unrecognised value, a trigger missing any of
/// its three required parts, or triggers without `Exec` or `When`.
pub fn parse(name: &str, contents: &str) -> (r: Result<Hook, ParseError>)
    ensures
        match r {
            Ok(hook) => hook_of(name@, contents@) == Ok::<HookView, Seq<char>>(hook@),
            Err(error) => error.file@ == name@ && hook_of(name@, contents@) == Err::<
                HookView,
                Seq<char>,
            >(error.reason@),
        },
{
    let mut hook = Hook {
        name: name.to_owned(),
        description: None,
        triggers: Vec::new(),
        depends: Vec::new(),
        command: Vec::new(),
        when: None,
        abort_on_fail: false,
        needs_targets: false,
    };
    let mut section: Option<Section> = None;
    let all = text::chars(contents);
    let lines = text::split_lines(all.as_slice());
    let ghost views = text::pieces(lines@);
    let mut i: usize = 0;
    proof {
        assert(hook@.triggers =~= Seq::<TriggerView>::empty());
        assert(hook@.depends =~= Seq::<Seq<char>>::empty());
        assert(hook@.command =~= Seq::<Seq<char>>::empty());
        assert(views.take(0) =~= Seq::<Seq<char>>::empty());
    }
    while i < lines.len()
        invariant
            i <= lines.len(),
            views == text::pieces(lines@),
            views == text::lines(contents@),
            after_lines(name@, views.take(i as int)) == Ok::<
                (HookView, Option<Section>),
                Seq<char>,
            >((hook@, section)),
        decreases lines.len() - i,
    {
        let ghost so_far = views.take(i + 1);
        proof {
            assert(so_far.drop_last() =~= views.take(i as int));
            assert(so_far.last() == lines@[i as int]@);
        }
        if let Some(line) = ini::parse_line(lines[i]) {
            match read_line(&mut hook, &mut section, line) {
                Ok(()) => {},
                Err(why) => {
                    let mut reason = "line ".to_owned();
                    text::push_decimal(&mut reason, i as u64 + 1);
                    reason.push_str(": ");
                    reason.push_str(why.as_str());
                    proof {
                        lemma_refused(name@, views, i + 1);
                    }
                    return Err(ParseError { file: name.to_owned(), reason });
                },
            }
        }
        i += 1;
    }
    assert(views.take(i as int) =~= views);
    match validate(&hook) {
        Ok(()) => Ok(hook),
        Err(reason) => Err(ParseError { file: name.to_owned(), reason }),
    }
}

/// Nothing after a refused line matters.
proof fn lemma_refused(name: Seq<char>, lines: Seq<Seq<char>>, n: int)
    requires
        0 <= n <= lines.len(),
        after_lines(name, lines.take(n)) is Err,
    ensures
        after_lines(name, lines) == after_lines(name, lines.take(n)),
    decreases lines.len() - n,
{
    if n == lines.len() {
        assert(lines.take(n) =~= lines);
    } else {
        assert(lines.take(n + 1).drop_last() =~= lines.take(n));
        lemma_refused(name, lines, n + 1);
    }
}

// ---------------------------------------------------------------------------------------------
// Laws

/// A file that says nothing is a hook, which never runs: it masks another of its name.
pub proof fn an_empty_file_masks(name: Seq<char>)
    ensures
        hook_of(name, Seq::empty()) == Ok::<HookView, Seq<char>>(HookView::blank(name)),
        !HookView::blank(name).active(),
{
    assert(text::lines(Seq::empty()) =~= Seq::<Seq<char>>::empty());
}

/// A hook that was accepted either has no triggers or can run, and then each of its triggers is
/// complete.
pub proof fn an_accepted_hook_is_whole(name: Seq<char>, s: Seq<char>)
    requires
        hook_of(name, s) is Ok,
    ensures
        hook_of(name, s)->Ok_0.triggers.len() == 0 || hook_of(name, s)->Ok_0.active(),
        forall|i: int|
            0 <= i < hook_of(name, s)->Ok_0.triggers.len() ==> {
                let trigger = #[trigger] hook_of(name, s)->Ok_0.triggers[i];
                trigger.targets.len() > 0 && trigger.kind is Some && trigger.operations
                    != Operations::spec_none()
            },
{
    let hook = hook_of(name, s)->Ok_0;
    if hook.triggers.len() > 0 {
        lemma_none_lacks(hook.triggers, 0);
        assert forall|i: int| 0 <= i < hook.triggers.len() implies ({
            let trigger = #[trigger] hook.triggers[i];
            trigger.targets.len() > 0 && trigger.kind is Some && trigger.operations
                != Operations::spec_none()
        }) by {
            assert(lacking(hook.triggers[i], i) is None);
        }
    }
}

/// Where no trigger is found to lack anything, none does.
proof fn lemma_none_lacks(triggers: Seq<TriggerView>, i: int)
    requires
        first_lacking(triggers, i) is None,
    ensures
        forall|k: int| i <= k < triggers.len() ==> lacking(#[trigger] triggers[k], k) is None,
    decreases triggers.len() - i,
{
    if i < triggers.len() {
        lemma_none_lacks(triggers, i + 1);
        assert forall|k: int| i <= k < triggers.len() implies lacking(
            #[trigger] triggers[k],
            k,
        ) is None by {
            if k == i {
                assert(lacking(triggers[i], i) is None);
            }
        }
    }
}

/// An accepted hook keeps the name of its file.
pub proof fn a_hook_keeps_its_name(name: Seq<char>, lines: Seq<Seq<char>>)
    ensures
        after_lines(name, lines) matches Ok((hook, _)) ==> hook.name == name,
    decreases lines.len(),
{
    if lines.len() > 0 {
        a_hook_keeps_its_name(name, lines.drop_last());
    }
}

} // verus!
