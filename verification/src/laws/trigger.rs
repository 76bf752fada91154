//! What sets a hook off, and what it runs.

use vstd::prelude::*;

use crate::hook::parse::{HookView, TriggerKind, TriggerView, When};
use crate::hook::trigger::{fires, is_target_list, Summary};
use crate::hook::wordsplit::{is_quote, quoted, split_of, word_at, words_from, SplitError};
use crate::hook::{
    aborts, first_missing, gathered, held, loaded, sets_off, winner, Contents, Directory, Found,
    Listing, ProblemView,
};
use crate::laws::owner::within;
use crate::package::is_relation;
use crate::pattern::Answers;
use crate::text;

verus! {

// ---------------------------------------------------------------------------------------------
// Triggers

/// Whether a text is in a list.
pub open spec fn is_in(list: Seq<String>, s: Seq<char>) -> bool {
    exists|i: int| 0 <= i < list.len() && (#[trigger] list[i])@ == s
}

/// Whether package `i` of those that are added is of this name.
pub open spec fn is_added(summary: Summary, i: int, name: Seq<char>) -> bool {
    0 <= i < summary.added@.len() && summary.added@[i].name@ == name
}

/// Whether package `i` of those that are removed is of this name.
pub open spec fn is_removed(summary: Summary, i: int, name: Seq<char>) -> bool {
    0 <= i < summary.removed@.len() && summary.removed@[i].name@ == name
}

/// Whether package `i` of those that are added ships a path.
pub open spec fn brings(summary: Summary, i: int, path: Seq<char>) -> bool {
    0 <= i < summary.added@.len() && is_in(summary.added@[i].files@, path)
}

/// Whether package `i` of those that are added replaces a version that owned a path.
pub open spec fn owned_once(summary: Summary, i: int, path: Seq<char>) -> bool {
    0 <= i < summary.added@.len() && is_in(summary.added@[i].old_files@, path)
}

/// Whether package `i` of those that are removed owned a path.
pub open spec fn owned_last(summary: Summary, i: int, path: Seq<char>) -> bool {
    0 <= i < summary.removed@.len() && is_in(summary.removed@[i].files@, path)
}

/// Whether a path is laid down: a package ships it and nothing keeps it out.
pub open spec fn is_laid(summary: Summary, answers: Answers, path: Seq<char>) -> bool {
    &&& exists|i: int| #[trigger] brings(summary, i, path)
    &&& !answers.matches(text::texts(summary.no_extract@), path)
}

/// Whether a path was owned by a version that goes.
pub open spec fn was_owned(summary: Summary, path: Seq<char>) -> bool {
    ||| exists|i: int| #[trigger] owned_once(summary, i, path)
    ||| exists|i: int| #[trigger] owned_last(summary, i, path)
}

/// Whether a trigger reacts to a name or a path: one that it matches, and that the transaction
/// installs, upgrades or removes, where it asks for that.
pub open spec fn reacts(
    trigger: TriggerView,
    answers: Answers,
    summary: Summary,
    key: Seq<char>,
) -> bool {
    &&& answers.matches(trigger.targets, key)
    &&& if trigger.kind == Some(TriggerKind::Path) {
        let laid = is_laid(summary, answers, key);
        let owned = was_owned(summary, key);
        ||| trigger.operations.install && laid && !owned
        ||| trigger.operations.upgrade && laid && owned
        ||| trigger.operations.remove && owned && !laid
    } else {
        ||| trigger.operations.install && exists|i: int| #[trigger]
            is_added(summary, i, key) && !summary.added@[i].replaces_installed
        ||| trigger.operations.upgrade && exists|i: int| #[trigger]
            is_added(summary, i, key) && summary.added@[i].replaces_installed
        ||| trigger.operations.remove && (exists|i: int| #[trigger] is_removed(summary, i, key))
            && forall|i: int| !#[trigger] is_added(summary, i, key)
    }
}

/// Whether a trigger of a hook reacts to a name or a path.
pub open spec fn any_reacts(
    hook: HookView,
    answers: Answers,
    summary: Summary,
    key: Seq<char>,
) -> bool {
    exists|t: int|
        0 <= t < hook.triggers.len() && reacts(#[trigger] hook.triggers[t], answers, summary, key)
}

proof fn lemma_in(list: Seq<String>, s: Seq<char>)
    ensures
        text::texts(list).contains(s) == is_in(list, s),
{
    let all = text::texts(list);
    if all.contains(s) {
        let i = choose|i: int| 0 <= i < all.len() && all[i] == s;
        assert(list[i]@ == s);
    }
    if is_in(list, s) {
        let i = choose|i: int| 0 <= i < list.len() && (#[trigger] list[i])@ == s;
        assert(all[i] == s);
    }
}

proof fn lemma_laid(summary: Summary, answers: Answers, path: Seq<char>)
    ensures
        is_laid(summary, answers, path) == summary.writes(answers, path),
        was_owned(summary, path) == summary.takes(path),
{
    let added = summary.added@;
    let removed = summary.removed@;
    assert forall|i: int| 0 <= i < added.len() implies text::texts(
        (#[trigger] added[i]).files@,
    ).contains(path) == brings(summary, i, path) && text::texts(added[i].old_files@).contains(path)
        == owned_once(summary, i, path) by {
        lemma_in(added[i].files@, path);
        lemma_in(added[i].old_files@, path);
    }
    assert forall|i: int| 0 <= i < removed.len() implies text::texts(
        (#[trigger] removed[i]).files@,
    ).contains(path) == owned_last(summary, i, path) by {
        lemma_in(removed[i].files@, path);
    }
    if exists|i: int| #[trigger] brings(summary, i, path) {
        let i = choose|i: int| #[trigger] brings(summary, i, path);
        assert(text::texts(added[i].files@).contains(path));
    }
    if exists|i: int| #[trigger] owned_once(summary, i, path) {
        let i = choose|i: int| #[trigger] owned_once(summary, i, path);
        assert(text::texts(added[i].old_files@).contains(path));
    }
    if exists|i: int| #[trigger] owned_last(summary, i, path) {
        let i = choose|i: int| #[trigger] owned_last(summary, i, path);
        assert(text::texts(removed[i].files@).contains(path));
    }
    if crate::hook::trigger::ships(added, path) {
        let i = choose|i: int|
            0 <= i < added.len() && text::texts((#[trigger] added[i]).files@).contains(path);
        assert(brings(summary, i, path));
    }
    if crate::hook::trigger::owned_before(added, path) {
        let i = choose|i: int|
            0 <= i < added.len() && text::texts((#[trigger] added[i]).old_files@).contains(path);
        assert(owned_once(summary, i, path));
    }
    if crate::hook::trigger::owned(removed, path) {
        let i = choose|i: int|
            0 <= i < removed.len() && text::texts((#[trigger] removed[i]).files@).contains(path);
        assert(owned_last(summary, i, path));
    }
}

proof fn lemma_added(summary: Summary, name: Seq<char>, replaces: bool)
    ensures
        summary.adds(name, replaces) == exists|i: int| #[trigger]
            is_added(summary, i, name) && summary.added@[i].replaces_installed == replaces,
        summary.removes(name) == exists|i: int| #[trigger] is_removed(summary, i, name),
{
    if summary.adds(name, replaces) {
        let i = choose|i: int|
            0 <= i < summary.added@.len() && (#[trigger] summary.added@[i]).name@ == name
                && summary.added@[i].replaces_installed == replaces;
        assert(is_added(summary, i, name));
    }
    if exists|i: int| #[trigger]
        is_added(summary, i, name) && summary.added@[i].replaces_installed == replaces {
        let i = choose|i: int| #[trigger]
            is_added(summary, i, name) && summary.added@[i].replaces_installed == replaces;
        assert(summary.added@[i].name@ == name);
    }
    if summary.removes(name) {
        let i = choose|i: int|
            0 <= i < summary.removed@.len() && (#[trigger] summary.removed@[i]).name@ == name;
        assert(is_removed(summary, i, name));
    }
    if exists|i: int| #[trigger] is_removed(summary, i, name) {
        let i = choose|i: int| #[trigger] is_removed(summary, i, name);
        assert(summary.removed@[i].name@ == name);
    }
}

proof fn lemma_selects(trigger: TriggerView, answers: Answers, summary: Summary, key: Seq<char>)
    ensures
        crate::hook::trigger::selects(trigger, answers, summary, key) == reacts(
            trigger,
            answers,
            summary,
            key,
        ),
{
    lemma_laid(summary, answers, key);
    lemma_added(summary, key, true);
    lemma_added(summary, key, false);
    if exists|i: int| #[trigger] is_added(summary, i, key) {
        let i = choose|i: int| #[trigger] is_added(summary, i, key);
        assert(summary.added@[i].replaces_installed || !summary.added@[i].replaces_installed);
        assert(summary.adds(key, true) || summary.adds(key, false));
    }
}

/// A hook fires where one of its triggers reacts to something, and runs at its own time alone, where
/// it has a command. One that asks for targets is given all that its triggers react to, and no more,
/// in order.
pub proof fn a_hook_is_set_off_by_what_it_reacts_to(
    hook: HookView,
    when: When,
    answers: Answers,
    summary: Summary,
    targets: Seq<Seq<char>>,
)
    ensures
        fires(hook, answers, summary) <==> exists|key: Seq<char>| #[trigger]
            any_reacts(hook, answers, summary, key),
        sets_off(hook, when, answers, summary) <==> hook.when == Some(when) && hook.command.len()
            > 0 && exists|key: Seq<char>| #[trigger] any_reacts(hook, answers, summary, key),
        is_target_list(hook, answers, summary, targets) && hook.needs_targets ==> {
            &&& forall|key: Seq<char>| #[trigger]
                targets.contains(key) <==> any_reacts(hook, answers, summary, key)
            &&& forall|i: int, j: int|
                0 <= i < j < targets.len() ==> text::text_lt(
                    #[trigger] targets[i],
                    #[trigger] targets[j],
                )
        },
        is_target_list(hook, answers, summary, targets) && !hook.needs_targets ==> targets.len()
            == 0,
{
    assert forall|t: int, key: Seq<char>| 0 <= t < hook.triggers.len() implies #[trigger] reacts(
        hook.triggers[t],
        answers,
        summary,
        key,
    ) == crate::hook::trigger::selects(hook.triggers[t], answers, summary, key) by {
        lemma_selects(hook.triggers[t], answers, summary, key);
    }
    if fires(hook, answers, summary) {
        let t = choose|t: int|
            0 <= t < hook.triggers.len() && crate::hook::trigger::trigger_fires(
                #[trigger] hook.triggers[t],
                answers,
                summary,
            );
        let key = choose|key: Seq<char>|
            crate::hook::trigger::selects(hook.triggers[t], answers, summary, key);
        assert(reacts(hook.triggers[t], answers, summary, key));
        assert(any_reacts(hook, answers, summary, key));
    }
    if exists|key: Seq<char>| #[trigger] any_reacts(hook, answers, summary, key) {
        let key = choose|key: Seq<char>| #[trigger] any_reacts(hook, answers, summary, key);
        let t = choose|t: int|
            0 <= t < hook.triggers.len() && reacts(
                #[trigger] hook.triggers[t],
                answers,
                summary,
                key,
            );
        assert(crate::hook::trigger::selects(hook.triggers[t], answers, summary, key));
        assert(crate::hook::trigger::trigger_fires(hook.triggers[t], answers, summary));
        assert(fires(hook, answers, summary));
    }
    if is_target_list(hook, answers, summary, targets) && hook.needs_targets {
        assert forall|key: Seq<char>| #[trigger] targets.contains(key) <==> any_reacts(
            hook,
            answers,
            summary,
            key,
        ) by {
            if targets.contains(key) {
                let t = choose|t: int|
                    0 <= t < hook.triggers.len() && crate::hook::trigger::selects(
                        #[trigger] hook.triggers[t],
                        answers,
                        summary,
                        key,
                    );
                assert(reacts(hook.triggers[t], answers, summary, key));
            }
            if any_reacts(hook, answers, summary, key) {
                let t = choose|t: int|
                    0 <= t < hook.triggers.len() && reacts(
                        #[trigger] hook.triggers[t],
                        answers,
                        summary,
                        key,
                    );
                assert(crate::hook::trigger::selects(hook.triggers[t], answers, summary, key));
            }
        }
    }
}

/// The dependency that is missing is the first that is no relation or that nothing satisfies.
pub proof fn the_first_missing_dependency_is_named(
    depends: Seq<Seq<char>>,
    satisfied: Seq<Seq<char>>,
    i: int,
)
    requires
        0 <= i <= depends.len(),
        forall|k: int|
            0 <= k < i ==> is_relation(#[trigger] depends[k]) && satisfied.contains(depends[k]),
    ensures
        match first_missing(depends, crate::hook::relations(depends), satisfied, i) {
            Some(missing) => exists|j: int|
                0 <= j < depends.len() && #[trigger] depends[j] == missing && !(is_relation(missing)
                    && satisfied.contains(missing)) && forall|k: int|
                    0 <= k < j ==> is_relation(#[trigger] depends[k]) && satisfied.contains(
                        depends[k],
                    ),
            None => forall|k: int|
                0 <= k < depends.len() ==> is_relation(#[trigger] depends[k])
                    && satisfied.contains(depends[k]),
        },
    decreases depends.len() - i,
{
    if i < depends.len() && is_relation(depends[i]) && satisfied.contains(depends[i]) {
        the_first_missing_dependency_is_named(depends, satisfied, i + 1);
    }
}

/// A hook stops a transaction only before it, and only where it says so.
pub proof fn only_a_hook_that_says_so_stops(hook: HookView)
    ensures
        aborts(hook) ==> hook.abort_on_fail,
        aborts(hook) ==> hook.when == Some(When::PreTransaction),
        hook.abort_on_fail && hook.when == Some(When::PreTransaction) ==> aborts(hook),
{
}

/// A file that cannot be read is reported under its own path, and a directory is nothing. What is
/// neither is parsed under its own name, and what is no plain file as if it were empty.
pub proof fn a_hook_file_is_told_by_its_name(directory: Seq<char>, found: Found)
    ensures
        match found.contents {
            Contents::Directory => loaded(directory, found) == Ok::<Option<HookView>, ProblemView>(
                None,
            ),
            Contents::Unreadable(reason) => loaded(directory, found) == Err::<
                Option<HookView>,
                ProblemView,
            >(
                ProblemView::UnreadableHook {
                    path: within(directory, found.name@),
                    reason: reason@,
                },
            ),
            Contents::Special => loaded(directory, found) == Ok::<Option<HookView>, ProblemView>(
                Some(HookView::blank(found.name@)),
            ),
            Contents::Text(contents) => {
                let hook = crate::hook::parse::hook_of(found.name@, contents@);
                &&& hook is Ok ==> loaded(directory, found) == Ok::<Option<HookView>, ProblemView>(
                    Some(hook->Ok_0),
                )
                &&& hook is Err ==> loaded(directory, found) == Err::<
                    Option<HookView>,
                    ProblemView,
                >(ProblemView::Invalid { file: found.name@, reason: hook->Err_0 })
            },
        },
{
    crate::hook::parse::an_empty_file_masks(found.name@);
}

// ---------------------------------------------------------------------------------------------
// Commands

/// Whether a text can stand in a quoted run as it is.
pub open spec fn is_plain(s: Seq<char>, quote: char) -> bool {
    forall|i: int| 0 <= i < s.len() ==> #[trigger] s[i] != quote && s[i] != '\\'
}

/// Whether a text is part of a word that is not quoted.
pub open spec fn is_bare(s: Seq<char>) -> bool {
    forall|i: int| 0 <= i < s.len() ==> !is_quote(#[trigger] s[i]) && !text::is_space(s[i])
}

proof fn lemma_quoted_plain(c: Seq<char>, i: int, run: Seq<char>, quote: char)
    requires
        0 <= i,
        i + run.len() <= c.len(),
        c.subrange(i, i + run.len()) == run,
        is_plain(run, quote),
    ensures
        quoted(c, i, quote) == match quoted(c, i + run.len(), quote) {
            Some((rest, end)) => Some((run + rest, end)),
            None => None,
        },
    decreases run.len(),
{
    if run.len() > 0 {
        let tail = run.skip(1);
        assert(c[i] == c.subrange(i, i + run.len())[0]);
        assert(c.subrange(i + 1, i + 1 + tail.len()) =~= tail) by {
            assert forall|k: int| 0 <= k < tail.len() implies c[i + 1 + k] == tail[k] by {
                assert(c.subrange(i, i + run.len())[k + 1] == run[k + 1]);
            }
        }
        assert(is_plain(tail, quote)) by {
            assert forall|k: int| 0 <= k < tail.len() implies #[trigger] tail[k] != quote
                && tail[k] != '\\' by {
                assert(tail[k] == run[k + 1]);
            }
        }
        lemma_quoted_plain(c, i + 1, tail, quote);
        if let Some((rest, end)) = quoted(c, i + run.len(), quote) {
            assert(seq![run[0]] + (tail + rest) =~= run + rest);
        }
    } else {
        if let Some((rest, end)) = quoted(c, i, quote) {
            assert(run + rest =~= rest);
        }
    }
}

proof fn lemma_word_bare(c: Seq<char>, i: int, run: Seq<char>)
    requires
        0 <= i,
        i + run.len() <= c.len(),
        c.subrange(i, i + run.len()) == run,
        is_bare(run),
    ensures
        word_at(c, i) == match word_at(c, i + run.len()) {
            Ok((rest, stop)) => Ok::<(Seq<char>, int), int>((run + rest, stop)),
            Err(at) => Err::<(Seq<char>, int), int>(at),
        },
    decreases run.len(),
{
    if run.len() > 0 {
        let tail = run.skip(1);
        assert(c[i] == c.subrange(i, i + run.len())[0]);
        assert(c.subrange(i + 1, i + 1 + tail.len()) =~= tail) by {
            assert forall|k: int| 0 <= k < tail.len() implies c[i + 1 + k] == tail[k] by {
                assert(c.subrange(i, i + run.len())[k + 1] == run[k + 1]);
            }
        }
        assert(is_bare(tail)) by {
            assert forall|k: int| 0 <= k < tail.len() implies !is_quote(#[trigger] tail[k])
                && !text::is_space(tail[k]) by {
                assert(tail[k] == run[k + 1]);
            }
        }
        lemma_word_bare(c, i + 1, tail);
        if let Ok((rest, stop)) = word_at(c, i + run.len()) {
            assert(seq![run[0]] + (tail + rest) =~= run + rest);
        }
    } else {
        if let Ok((rest, stop)) = word_at(c, i) {
            assert(run + rest =~= rest);
        }
    }
}

/// In a quoted run a backslash before the quote stands for the quote, and a backslash before
/// anything else for itself.
pub proof fn a_backslash_keeps_a_quote(a: Seq<char>, b: Seq<char>, quote: char, other: char)
    requires
        is_quote(quote),
        is_plain(a, quote),
        is_plain(b, quote),
        other != quote,
        other != '\\',
    ensures
        split_of(seq![quote] + a + seq!['\\', quote] + b + seq![quote]) == Ok::<
            Seq<Seq<char>>,
            SplitError,
        >(seq![a + seq![quote] + b]),
        split_of(seq![quote] + a + seq!['\\', other] + b + seq![quote]) == Ok::<
            Seq<Seq<char>>,
            SplitError,
        >(seq![a + seq!['\\', other] + b]),
{
    let n = a.len() as int;
    let m = b.len() as int;
    let none = Seq::<char>::empty();
    let c = seq![quote] + a + seq!['\\', quote] + b + seq![quote];
    assert(c.subrange(1, 1 + n) =~= a);
    assert(c.subrange(n + 3, n + 3 + m) =~= b);
    assert(c[n + 1] == '\\' && c[n + 2] == quote && c[n + 3 + m] == quote);
    lemma_quoted_plain(c, 1, a, quote);
    lemma_quoted_plain(c, n + 3, b, quote);
    assert(quoted(c, n + 3 + m, quote) == Some((none, n + m + 4)));
    assert(b + none =~= b);
    assert(quoted(c, n + 1, quote) == Some((seq![quote] + b, n + m + 4)));
    assert(a + (seq![quote] + b) =~= a + seq![quote] + b);
    lemma_one_word(c, a + seq![quote] + b, quote);
    let d = seq![quote] + a + seq!['\\', other] + b + seq![quote];
    let tail = seq![other] + b;
    assert(d.subrange(1, 1 + n) =~= a);
    assert(d.subrange(n + 3, n + 3 + m) =~= b);
    assert(d[n + 1] == '\\' && d[n + 2] == other && d[n + 3 + m] == quote);
    lemma_quoted_plain(d, 1, a, quote);
    lemma_quoted_plain(d, n + 3, b, quote);
    assert(quoted(d, n + 3 + m, quote) == Some((none, n + m + 4)));
    assert(quoted(d, n + 2, quote) == Some((seq![other] + b, n + m + 4)));
    assert(quoted(d, n + 1, quote) == Some((seq!['\\'] + (seq![other] + b), n + m + 4)));
    assert(a + (seq!['\\'] + (seq![other] + b)) =~= a + seq!['\\', other] + b);
    lemma_one_word(d, a + seq!['\\', other] + b, quote);
}

proof fn lemma_one_word(c: Seq<char>, run: Seq<char>, quote: char)
    requires
        c.len() > 0,
        is_quote(quote),
        c[0] == quote,
        quoted(c, 1, quote) == Some((run, c.len() as int)),
    ensures
        split_of(c) == Ok::<Seq<Seq<char>>, SplitError>(seq![run]),
{
    let none = Seq::<char>::empty();
    let n = c.len() as int;
    assert(!text::is_space(quote));
    assert(word_at(c, n) == Ok::<(Seq<char>, int), int>((none, n)));
    assert(run + none =~= run);
    assert(word_at(c, 0) == Ok::<(Seq<char>, int), int>((run, n)));
    assert(crate::hook::wordsplit::next_word(c, 0) == 0);
    assert(words_from(c, n) == Ok::<Seq<Seq<char>>, int>(Seq::empty()));
    assert(seq![run] + Seq::<Seq<char>>::empty() =~= seq![run]);
}

/// What is quoted in the middle of a word belongs to it, white space and all, without its quotes.
pub proof fn a_quoted_run_joins_its_word(
    before: Seq<char>,
    run: Seq<char>,
    after: Seq<char>,
    quote: char,
)
    requires
        is_quote(quote),
        before.len() > 0,
        is_bare(before),
        is_plain(run, quote),
        is_bare(after),
    ensures
        split_of(before + seq![quote] + run + seq![quote] + after) == Ok::<
            Seq<Seq<char>>,
            SplitError,
        >(seq![before + run + after]),
{
    let c = before + seq![quote] + run + seq![quote] + after;
    let n = before.len() as int;
    let m = run.len() as int;
    let end = c.len() as int;
    let none = Seq::<char>::empty();
    assert(c.subrange(0, n) =~= before);
    assert(c.subrange(n + 1, n + 1 + m) =~= run);
    assert(c.subrange(n + m + 2, n + m + 2 + after.len()) =~= after);
    assert(c[n] == quote && c[n + 1 + m] == quote);
    lemma_word_bare(c, 0, before);
    lemma_quoted_plain(c, n + 1, run, quote);
    assert(quoted(c, n + 1 + m, quote) == Some((none, n + m + 2)));
    assert(run + none =~= run);
    lemma_word_bare(c, n + m + 2, after);
    assert(word_at(c, end) == Ok::<(Seq<char>, int), int>((none, end)));
    assert(after + none =~= after);
    assert(!text::is_space(quote));
    assert(word_at(c, n) == Ok::<(Seq<char>, int), int>((run + after, end)));
    assert(before + (run + after) =~= before + run + after);
    assert(c[0] == before[0]);
    assert(crate::hook::wordsplit::next_word(c, 0) == 0);
    assert(words_from(c, end) == Ok::<Seq<Seq<char>>, int>(Seq::empty()));
    assert(seq![before + run + after] + Seq::<Seq<char>>::empty() =~= seq![before + run + after]);
}

/// A quote that is never closed is told by where it was opened.
pub proof fn an_open_quote_is_told_by_its_place(before: Seq<char>, rest: Seq<char>, quote: char)
    requires
        is_quote(quote),
        is_bare(before),
        is_plain(rest, quote),
        before.len() <= usize::MAX,
    ensures
        split_of(before + seq![quote] + rest) == Err::<Seq<Seq<char>>, SplitError>(
            SplitError::UnbalancedQuote { position: before.len() as usize },
        ),
{
    let c = before + seq![quote] + rest;
    let n = before.len() as int;
    assert(c.subrange(0, n) =~= before);
    assert(c.subrange(n + 1, n + 1 + rest.len()) =~= rest);
    assert(c[n] == quote);
    lemma_word_bare(c, 0, before);
    lemma_quoted_plain(c, n + 1, rest, quote);
    assert(quoted(c, c.len() as int, quote) is None);
    assert(!text::is_space(quote));
    assert(word_at(c, n) == Err::<(Seq<char>, int), int>(n));
    assert(word_at(c, 0) == Err::<(Seq<char>, int), int>(n));
    if n > 0 {
        assert(c[0] == before[0]);
    }
    assert(crate::hook::wordsplit::next_word(c, 0) == 0);
}

// ---------------------------------------------------------------------------------------------
// Directories

/// Whether entry `e` of directory `d` is the first of a name there that is no directory.
pub open spec fn has_file(directories: Seq<Directory>, name: Seq<char>, d: int, e: int) -> bool {
    &&& 0 <= d < directories.len()
    &&& directories[d].listing is Files
    &&& 0 <= e < directories[d].listing->Files_0@.len()
    &&& is_file_named(directories[d].listing->Files_0@[e], name)
    &&& forall|k: int|
        0 <= k < e ==> !is_file_named(#[trigger] directories[d].listing->Files_0@[k], name)
}

/// Whether an entry has a name and is no directory.
pub open spec fn is_file_named(found: Found, name: Seq<char>) -> bool {
    found.name@ == name && !(found.contents is Directory)
}

proof fn lemma_held(files: Seq<Found>, name: Seq<char>)
    ensures
        match held(files, name) {
            Some(found) => exists|e: int|
                0 <= e < files.len() && files[e] == found && is_file_named(
                    #[trigger] files[e],
                    name,
                ) && forall|k: int| 0 <= k < e ==> !is_file_named(#[trigger] files[k], name),
            None => forall|k: int| 0 <= k < files.len() ==> !is_file_named(#[trigger] files[k], name),
        },
    decreases files.len(),
{
    if files.len() > 0 {
        let fewer = files.drop_last();
        let last = files.len() - 1;
        lemma_held(fewer, name);
        match held(fewer, name) {
            Some(found) => {
                let e = choose|e: int|
                    0 <= e < fewer.len() && fewer[e] == found && is_file_named(
                        #[trigger] fewer[e],
                        name,
                    ) && forall|k: int|
                        0 <= k < e ==> !is_file_named(#[trigger] fewer[k], name);
                assert(is_file_named(files[e], name));
                assert forall|k: int| 0 <= k < e implies !is_file_named(
                    #[trigger] files[k],
                    name,
                ) by {
                    assert(files[k] == fewer[k]);
                }
            },
            None => {
                assert forall|k: int| 0 <= k < last implies !is_file_named(
                    #[trigger] files[k],
                    name,
                ) by {
                    assert(files[k] == fewer[k]);
                }
                assert(files[last] == files.last());
            },
        }
    }
}

proof fn lemma_winner(directories: Seq<Directory>, i: int, name: Seq<char>)
    requires
        0 <= i <= directories.len(),
    ensures
        match winner(directories, i, name) {
            Some((path, found)) => exists|d: int, e: int| #[trigger]
                has_file(directories, name, d, e) && i <= d && path == directories[d].path@ && found
                    == directories[d].listing->Files_0@[e] && forall|k: int, m: int|
                    d < k ==> !#[trigger] has_file(directories, name, k, m),
            None => forall|d: int, e: int| i <= d ==> !#[trigger] has_file(directories, name, d, e),
        },
    decreases directories.len() - i,
{
    if i < directories.len() {
        lemma_winner(directories, i + 1, name);
        if let Listing::Files(files) = directories[i].listing {
            lemma_held(files@, name);
            if winner(directories, i + 1, name) is None {
                if let Some(found) = held(files@, name) {
                    let e = choose|e: int|
                        0 <= e < files@.len() && files@[e] == found && is_file_named(
                            #[trigger] files@[e],
                            name,
                        ) && forall|k: int|
                            0 <= k < e ==> !is_file_named(#[trigger] files@[k], name);
                    assert(has_file(directories, name, i, e));
                }
            }
        }
    }
}

/// The hooks that are found are, for each name with the suffix, what the file of the last directory
/// that has one comes to; a directory of that name is passed over.
pub proof fn the_last_directory_has_its_way(
    directories: Seq<Directory>,
    hook: HookView,
    d: int,
    e: int,
)
    requires
        has_file(directories, hook.name, d, e),
        forall|k: int, m: int| d < k ==> !#[trigger] has_file(directories, hook.name, k, m),
    ensures
        gathered(directories, 0).hooks.contains(hook) <==> text::ends_with(hook.name, ".hook"@)
            && loaded(directories[d].path@, directories[d].listing->Files_0@[e]) == Ok::<
            Option<HookView>,
            ProblemView,
        >(Some(hook)),
{
    lemma_winner(directories, 0, hook.name);
    let any = ProblemView::UnreadableHook { path: Seq::empty(), reason: Seq::empty() };
    crate::hook::a_later_directory_wins(directories, 0, hook, any);
    if winner(directories, 0, hook.name) is None {
        assert(!has_file(directories, hook.name, d, e));
    }
    let (path, found) = winner(directories, 0, hook.name)->0;
    let (k, m) = choose|k: int, m: int| #[trigger]
        has_file(directories, hook.name, k, m) && 0 <= k && path == directories[k].path@ && found
            == directories[k].listing->Files_0@[m] && forall|a: int, b: int|
            k < a ==> !#[trigger] has_file(directories, hook.name, a, b);
    assert(k == d);
    let files = directories[d].listing->Files_0@;
    if m < e {
        assert(!is_file_named(files[m], hook.name));
    }
    if e < m {
        assert(!is_file_named(files[e], hook.name));
    }
}

/// No hook is found under a name that no directory has a file of.
pub proof fn no_hook_without_a_file(directories: Seq<Directory>, hook: HookView)
    requires
        gathered(directories, 0).hooks.contains(hook),
    ensures
        exists|d: int, e: int| #[trigger] has_file(directories, hook.name, d, e),
{
    lemma_winner(directories, 0, hook.name);
    let any = ProblemView::UnreadableHook { path: Seq::empty(), reason: Seq::empty() };
    crate::hook::a_later_directory_wins(directories, 0, hook, any);
}

} // verus!
