//! What a recorder keeps of a transaction, and what it puts in the log.

use vstd::prelude::*;

use crate::extract::backup::BackupOutcomeView;
use crate::history::pacman_log::{action_of_message, hook_of, tellable};
use crate::history::recorder::{after_event, after_step, pacnews, LogLineView};
use crate::history::{install_action, saved_from, without_suffix, ActionView, EntryView};
use crate::install;
use crate::install::OutcomeView as MemberOutcomeView;
use crate::laws::lists::{lemma_picks_agree, picks};
use crate::laws::log::{a_hook_is_quoted, a_message_is_its_actions_spelling, spelling};
use crate::package;
use crate::package::EntryNameView;
use crate::plan::Step;
use crate::progress::{Event, StepOutcome};
use crate::text;

verus! {

/// What an installation did: it put something where nothing was, or something newer or older or the
/// same in the place of what was. Versions that cannot be ordered count as the same.
pub proof fn an_installation_goes_one_way(entry: EntryNameView, previous: EntryNameView, sign: i8)
    ensures
        install_action(entry, None) == (ActionView::Installed {
            name: entry.name,
            version: entry.version,
        }),
        package::ordered(entry.version, previous.version) == Some(sign) && sign > 0
            ==> install_action(entry, Some(previous)) == (ActionView::Upgraded {
            name: entry.name,
            from: previous.version,
            to: entry.version,
        }),
        package::ordered(entry.version, previous.version) == Some(sign) && sign < 0
            ==> install_action(entry, Some(previous)) == (ActionView::Downgraded {
            name: entry.name,
            from: previous.version,
            to: entry.version,
        }),
        package::ordered(entry.version, previous.version) is None || package::ordered(
            entry.version,
            previous.version,
        ) == Some(0i8) ==> install_action(entry, Some(previous)) == (ActionView::Reinstalled {
            name: entry.name,
            version: entry.version,
        }),
{
}

/// A path that was diverted or saved is told by the name it had.
pub proof fn a_suffix_is_taken_off_again(path: Seq<char>, rest: Seq<char>)
    requires
        !rest.contains('p'),
    ensures
        without_suffix(path + ".pacnew"@, ".pacnew"@) == path,
        saved_from(path + ".pacsave"@ + rest) == path,
{
    reveal_strlit(".pacnew");
    reveal_strlit(".pacsave");
    let diverted = path + ".pacnew"@;
    assert(diverted.skip(path.len() as int) =~= ".pacnew"@);
    assert(diverted.take(path.len() as int) =~= path);
    let saved = path + ".pacsave"@ + rest;
    lemma_before_last(path, rest, saved.len() as int);
}

proof fn lemma_before_last(path: Seq<char>, rest: Seq<char>, n: int)
    requires
        !rest.contains('p'),
        path.len() <= n <= path.len() + 8 + rest.len(),
    ensures
        crate::history::before_last(path + ".pacsave"@ + rest, ".pacsave"@, n) == path,
    decreases n,
{
    reveal_strlit(".pacsave");
    let mark = ".pacsave"@;
    let saved = path + mark + rest;
    let here = saved.skip(n);
    if n == path.len() {
        assert(here.take(8) =~= mark);
        assert(saved.take(n) =~= path);
    } else {
        if text::starts_with(here, mark) {
            assert(here.take(8)[0] == '.');
            assert(here.take(8)[1] == 'p');
            assert(here[0] == saved[n] && here[1] == saved[n + 1]);
            if n < path.len() + 8 {
                assert(saved[n] == mark[n - path.len()]);
                assert(mark[n - path.len()] != '.');
            } else {
                let k = n + 1 - path.len() - 8;
                assert(saved[n + 1] == rest[k]);
                assert(rest.contains(rest[k]));
            }
            assert(false);
        }
        lemma_before_last(path, rest, n - 1);
    }
}

/// The `.pacnew` files that are told of are those of the members that were kept beside one, in
/// order.
pub proof fn every_pacnew_is_told_of(outcomes: Seq<(Seq<char>, MemberOutcomeView)>)
    ensures
        pacnews(outcomes) == picks(
            outcomes.len() as int,
            |i: int| is_pacnew(outcomes[i].1),
            |i: int| pacnew_of(outcomes[i].1),
        ),
    decreases outcomes.len(),
{
    if outcomes.len() > 0 {
        let fewer = outcomes.drop_last();
        every_pacnew_is_told_of(fewer);
        lemma_picks_agree(
            outcomes.len() - 1,
            |i: int| is_pacnew(fewer[i].1),
            |i: int| is_pacnew(outcomes[i].1),
            |i: int| pacnew_of(fewer[i].1),
            |i: int| pacnew_of(outcomes[i].1),
        );
    }
}

/// Whether a member was kept beside a `.pacnew`.
pub open spec fn is_pacnew(outcome: MemberOutcomeView) -> bool {
    outcome is Backup && outcome->Backup_0 is KeptBoth
}

/// The `.pacnew` beside a member.
pub open spec fn pacnew_of(outcome: MemberOutcomeView) -> Seq<char> {
    match outcome {
        MemberOutcomeView::Backup(BackupOutcomeView::KeptBoth { pacnew }) => pacnew,
        _ => Seq::empty(),
    }
}

/// Whether nothing but what a step did differs between two entries.
pub open spec fn same_transaction(a: EntryView, b: EntryView) -> bool {
    &&& a.id == b.id
    &&& a.started == b.started
    &&& a.finished == b.finished
    &&& a.root == b.root
    &&& a.dbpath == b.dbpath
    &&& a.command == b.command
    &&& a.outcome == b.outcome
}

/// The warnings for what was left behind: for each `.pacnew` the path it is for, and then for each
/// `.pacsave` the path it was.
pub open spec fn warnings(news: Seq<Seq<char>>, saves: Seq<Seq<char>>) -> Seq<Seq<char>> {
    Seq::new(
        news.len() + saves.len(),
        |i: int|
            if i < news.len() {
                "warning: "@ + without_suffix(news[i], ".pacnew"@) + " installed as "@ + news[i]
            } else {
                "warning: "@ + saved_from(saves[i - news.len()]) + " saved as "@ + saves[i
                    - news.len()]
            },
    )
}

/// An installation is kept as one action, with every `.pacnew` and every `.pacsave` it left, and
/// the log is told of each of those and then of the action.
pub proof fn an_installation_is_kept_and_logged(entry: EntryView, step: Step, outcome: StepOutcome)
    requires
        outcome is Installed,
    ensures
        ({
            let (after, lines) = after_step(entry, step, outcome);
            let written = (outcome->Installed_entry)@;
            let replaced = match outcome->replaced {
                Some(previous) => Some(previous@),
                None => None,
            };
            let action = install_action(written, replaced);
            let news = pacnews(install::outcome_views(outcome->extraction.outcomes@));
            let saves = text::texts(outcome->Installed_pacsaves@);
            &&& after.actions == entry.actions.push(action)
            &&& after.pacnew == entry.pacnew + news
            &&& after.pacsave == entry.pacsave + saves
            &&& after.hooks == entry.hooks
            &&& same_transaction(after, entry)
            &&& lines.len() == news.len() + saves.len() + 1
            &&& forall|i: int|
                0 <= i < lines.len() ==> (#[trigger] lines[i]) == (LogLineView {
                    scriptlet: false,
                    message: if i < lines.len() - 1 {
                        warnings(news, saves)[i]
                    } else {
                        spelling(action)
                    },
                })
        }),
{
    let written = (outcome->Installed_entry)@;
    let replaced = match outcome->replaced {
        Some(previous) => Some(previous@),
        None => None,
    };
    let action = install_action(written, replaced);
    a_message_is_its_actions_spelling(action, Seq::empty());
}

/// A removal is kept as one action, with every `.pacsave` it left, and the log is told of each of
/// those and then of the action.
pub proof fn a_removal_is_kept_and_logged(entry: EntryView, step: Step, outcome: StepOutcome)
    requires
        outcome is Removed,
        step is Remove,
    ensures
        ({
            let (after, lines) = after_step(entry, step, outcome);
            let action = ActionView::Removed {
                name: step->entry.name@,
                version: step->entry.version@,
            };
            let saves = text::texts(outcome->Removed_pacsaves@);
            &&& after.actions == entry.actions.push(action)
            &&& after.pacnew == entry.pacnew
            &&& after.pacsave == entry.pacsave + saves
            &&& after.hooks == entry.hooks
            &&& same_transaction(after, entry)
            &&& lines.len() == saves.len() + 1
            &&& forall|i: int|
                0 <= i < lines.len() ==> (#[trigger] lines[i]) == (LogLineView {
                    scriptlet: false,
                    message: if i < lines.len() - 1 {
                        warnings(Seq::empty(), saves)[i]
                    } else {
                        spelling(action)
                    },
                })
        }),
{
    let action = ActionView::Removed { name: step->entry.name@, version: step->entry.version@ };
    a_message_is_its_actions_spelling(action, Seq::empty());
}

/// A hook that starts is kept, and logged so that the log reads it back. A line of a scriptlet is
/// logged as that. What else is no finished step leaves both alone.
pub proof fn only_hooks_and_scriptlets_speak_between_steps(entry: EntryView, event: Event)
    requires
        event !is StepFinished,
    ensures
        ({
            let (after, lines) = after_event(entry, event);
            &&& event is HookStarted ==> {
                &&& after == (EntryView { hooks: entry.hooks.push(event->name@), ..entry })
                &&& lines.len() == 1
                &&& !lines[0].scriptlet
                &&& hook_of(lines[0].message) == Some(event->name@)
            }
            &&& event is ScriptletOutputLine ==> {
                &&& after == entry
                &&& lines.len() == 1
                &&& lines[0].scriptlet
                &&& lines[0].message == event->ScriptletOutputLine_line@
            }
            &&& event !is HookStarted && event !is ScriptletOutputLine ==> after == entry
                && lines.len() == 0
        }),
{
    if event is HookStarted {
        let message = "running '"@ + event->name@ + "'..."@;
        a_hook_is_quoted(message, event->name@);
    }
}

/// What a finished step adds to the entry is what its lines in the log read back as.
pub proof fn what_is_logged_is_what_is_kept(entry: EntryView, step: Step, outcome: StepOutcome)
    requires
        ({
            let after = after_step(entry, step, outcome).0;
            after.actions.len() > entry.actions.len() ==> tellable(after.actions.last())
        }),
    ensures
        ({
            let (after, lines) = after_step(entry, step, outcome);
            &&& after.actions == entry.actions + picks(
                lines.len() as int,
                |i: int| action_of_message(lines[i].message) is Some,
                |i: int| action_of_message(lines[i].message)->0,
            )
            &&& after.hooks == entry.hooks + picks(
                lines.len() as int,
                |i: int| hook_of(lines[i].message) is Some,
                |i: int| hook_of(lines[i].message)->0,
            )
        }),
{
    let (after, lines) = after_step(entry, step, outcome);
    let n = lines.len() as int;
    let p = |i: int| action_of_message(lines[i].message) is Some;
    let f = |i: int| action_of_message(lines[i].message)->0;
    let h = |i: int| hook_of(lines[i].message) is Some;
    let g = |i: int| hook_of(lines[i].message)->0;
    if outcome is Installed {
        an_installation_is_kept_and_logged(entry, step, outcome);
    } else if step is Remove {
        a_removal_is_kept_and_logged(entry, step, outcome);
    }
    if n > 0 {
        reveal_strlit("warning: ");
        let action = after.actions.last();
        assert forall|i: int| 0 <= i < n - 1 implies !#[trigger] p(i) && !h(i) by {
            let message = lines[i].message;
            assert(message[0] == "warning: "@[0]);
            lemma_warning(message);
        }
        assert forall|i: int| 0 <= i < n - 1 implies !#[trigger] h(i) by {
            assert(!p(i));
        }
        lemma_picks_none(n - 1, p, f);
        lemma_picks_none(n - 1, h, g);
        a_message_is_its_actions_spelling(action, lines[n - 1].message);
        crate::laws::log::lemma_kinds(lines[n - 1].message);
        assert(p(n - 1) && f(n - 1) == action);
        assert(!h(n - 1));
        assert(picks(n, p, f) =~= seq![action]);
        assert(after.actions =~= entry.actions + picks(n, p, f));
        assert(after.hooks =~= entry.hooks + picks(n, h, g));
    } else {
        assert(after.actions =~= entry.actions + picks(n, p, f));
        assert(after.hooks =~= entry.hooks + picks(n, h, g));
    }
}

proof fn lemma_picks_none<A>(n: int, p: spec_fn(int) -> bool, f: spec_fn(int) -> A)
    requires
        forall|i: int| 0 <= i < n ==> !#[trigger] p(i),
    ensures
        picks(n, p, f) == Seq::<A>::empty(),
    decreases n,
{
    if n > 0 {
        lemma_picks_none(n - 1, p, f);
    }
}

proof fn lemma_warning(message: Seq<char>)
    requires
        message.len() > 0,
        message[0] == 'w',
    ensures
        action_of_message(message) is None,
        hook_of(message) is None,
{
    reveal_strlit("running '");
    reveal_strlit("installed ");
    reveal_strlit("reinstalled ");
    reveal_strlit("removed ");
    reveal_strlit("upgraded ");
    reveal_strlit("downgraded ");
    if let Some(action) = action_of_message(message) {
        a_message_is_its_actions_spelling(action, message);
        assert(message[0] != 'w');
    }
    if let Some(name) = hook_of(message) {
        a_hook_is_quoted(message, name);
        assert(message[0] == 'r');
    }
}

} // verus!
