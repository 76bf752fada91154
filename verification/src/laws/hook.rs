//! What a hook file says.

use vstd::prelude::*;

use crate::hook::ini::{line_of, LineView};
use crate::hook::parse::{
    after_lines, flaw, hook_of, HookView, Operations, Section, TriggerKind, TriggerView, When,
};
use crate::hook::wordsplit::split_of;
use crate::laws::lists::{lemma_push_holds, picks};
use crate::text;

verus! {

// ---------------------------------------------------------------------------------------------
// Lines

/// A directive is a key, an equals sign and a value, with space round either. A section is its name
/// in brackets. A comment and an empty line say nothing.
pub proof fn a_line_is_a_section_or_a_directive(key: Seq<char>, value: Seq<char>)
    requires
        key.len() > 0,
        !text::is_space(key[0]),
        !text::is_space(key.last()),
        value.len() > 0,
        !text::is_space(value[0]),
        !text::is_space(value.last()),
    ensures
        !key.contains('=') && key[0] != '#' && key[0] != '[' ==> line_of(
            key.push(' ').push('=').push(' ') + value,
        ) == Some(LineView::Directive { key, value: Some(value) }),
        !key.contains('=') && key[0] != '#' && key[0] != '[' ==> line_of(key) == Some(
            LineView::Directive { key, value: None },
        ),
        line_of(seq!['['] + value + seq![']']) == Some(LineView::Section { name: value }),
        line_of(seq!['#'] + value) is None,
        line_of(Seq::empty()) is None,
{
    let spaced = key.push(' ');
    let whole = key.push(' ').push('=').push(' ') + value;
    text::lemma_trim_bare(key);
    text::lemma_trim_bare(value);
    assert(whole[0] == key[0]);
    assert(whole.last() == value.last());
    text::lemma_trim_bare(whole);
    let bracketed = seq!['['] + value + seq![']'];
    text::lemma_trim_bare(bracketed);
    assert(bracketed.subrange(1, bracketed.len() - 1) =~= value);
    text::lemma_trim_bare(seq!['#'] + value);
    if !key.contains('=') {
        let after = seq![' '] + value;
        assert(whole =~= spaced.push('=') + after);
        assert(!spaced.contains('=')) by {
            if spaced.contains('=') {
                let i = choose|i: int| 0 <= i < spaced.len() && spaced[i] == '=';
                assert(key[i] == '=');
            }
        }
        text::lemma_split_head(spaced, '=', after);
        assert(spaced.drop_last() =~= key);
        assert(text::trim_start(spaced) == spaced);
        assert(text::trim_end(key) == key);
        assert(text::trim_end(spaced) == text::trim_end(spaced.drop_last()));
        assert(text::trim(spaced) == key);
        assert(after.skip(1) =~= value);
        assert(text::trim_start(value) == value);
        assert(text::trim_start(after) == text::trim_start(after.skip(1)));
        assert(text::trim_end(value) == value);
        assert(text::trim(after) == value);
        text::lemma_split_whole(key, '=');
    }
}

/// Whether line `i` names a section.
pub open spec fn is_header(lines: Seq<Seq<char>>, i: int) -> bool {
    line_of(lines[i]) is Some && line_of(lines[i])->0 is Section
}

/// The section that line `i` names.
pub open spec fn header_name(lines: Seq<Seq<char>>, i: int) -> Seq<char> {
    line_of(lines[i])->0->name
}

/// The last line before `i` that names a section, or -1.
pub open spec fn header_before(lines: Seq<Seq<char>>, i: int) -> int
    decreases i,
{
    if i <= 0 {
        -1
    } else if is_header(lines, i - 1) {
        i - 1
    } else {
        header_before(lines, i - 1)
    }
}

/// Whether line `i` is a directive.
pub open spec fn is_directive(lines: Seq<Seq<char>>, i: int) -> bool {
    line_of(lines[i]) is Some && line_of(lines[i])->0 is Directive
}

/// The key of line `i`.
pub open spec fn key_at(lines: Seq<Seq<char>>, i: int) -> Seq<char> {
    line_of(lines[i])->0->key
}

/// The value of line `i`, which is empty where it has none.
pub open spec fn value_at(lines: Seq<Seq<char>>, i: int) -> Seq<char> {
    match line_of(lines[i])->0->value {
        Some(value) => value,
        None => Seq::empty(),
    }
}

/// Whether line `i` is a directive of a key in the section that line `h` names.
pub open spec fn is_under(lines: Seq<Seq<char>>, h: int, i: int, key: Seq<char>) -> bool {
    header_before(lines, i) == h && is_directive(lines, i) && key_at(lines, i) == key
}

/// Whether line `i` is a directive of a key in `[Action]`.
pub open spec fn is_action(lines: Seq<Seq<char>>, i: int, key: Seq<char>) -> bool {
    let h = header_before(lines, i);
    h >= 0 && header_name(lines, h) == "Action"@ && is_under(lines, h, i, key)
}

/// The values of a key in the section that line `h` names, in order.
pub open spec fn given(lines: Seq<Seq<char>>, n: int, h: int, key: Seq<char>) -> Seq<Seq<char>> {
    picks(n, |i: int| is_under(lines, h, i, key), |i: int| value_at(lines, i))
}

/// The values of a key in `[Action]`, in order.
pub open spec fn acts(lines: Seq<Seq<char>>, n: int, key: Seq<char>) -> Seq<Seq<char>> {
    picks(n, |i: int| is_action(lines, i, key), |i: int| value_at(lines, i))
}

/// The lines that start a trigger.
pub open spec fn trigger_heads(lines: Seq<Seq<char>>, n: int) -> Seq<int> {
    picks(
        n,
        |i: int| is_header(lines, i) && header_name(lines, i) == "Trigger"@,
        |i: int| i,
    )
}

/// Whether a trigger is what the directives under line `h` say: every operation that one of them
/// names, the kind that the last names, and every target in order.
pub open spec fn is_trigger(
    lines: Seq<Seq<char>>,
    n: int,
    h: int,
    trigger: TriggerView,
) -> bool {
    let operations = given(lines, n, h, "Operation"@);
    let kinds = given(lines, n, h, "Type"@);
    &&& trigger.operations.install <==> operations.contains("Install"@)
    &&& trigger.operations.upgrade <==> operations.contains("Upgrade"@)
    &&& trigger.operations.remove <==> operations.contains("Remove"@)
    &&& trigger.kind is Some <==> kinds.len() > 0
    &&& trigger.kind == Some(TriggerKind::Package) <==> kinds.len() > 0 && kinds.last()
        == "Package"@
    &&& trigger.targets == given(lines, n, h, "Target"@)
}

/// Whether a hook is what the first `n` lines of its file say: a trigger for each `[Trigger]`, in
/// order, and of `[Action]` the last time, description and command, every dependency, and whether it
/// stops the transaction and asks for its targets.
pub open spec fn is_said(
    name: Seq<char>,
    lines: Seq<Seq<char>>,
    n: int,
    hook: HookView,
) -> bool {
    let heads = trigger_heads(lines, n);
    let times = acts(lines, n, "When"@);
    let descriptions = acts(lines, n, "Description"@);
    let commands = acts(lines, n, "Exec"@);
    &&& hook.name == name
    &&& hook.triggers.len() == heads.len()
    &&& forall|k: int|
        0 <= k < heads.len() ==> is_trigger(lines, n, #[trigger] heads[k], hook.triggers[k])
    &&& hook.depends == acts(lines, n, "Depends"@)
    &&& hook.abort_on_fail <==> acts(lines, n, "AbortOnFail"@).len() > 0
    &&& hook.needs_targets <==> acts(lines, n, "NeedsTargets"@).len() > 0
    &&& hook.when is Some <==> times.len() > 0
    &&& hook.when == Some(When::PreTransaction) <==> times.len() > 0 && times.last()
        == "PreTransaction"@
    &&& hook.description is Some <==> descriptions.len() > 0
    &&& descriptions.len() > 0 ==> hook.description == Some(descriptions.last())
    &&& commands.len() == 0 ==> hook.command.len() == 0
    &&& commands.len() > 0 ==> split_of(commands.last()) == Ok::<
        Seq<Seq<char>>,
        crate::hook::wordsplit::SplitError,
    >(hook.command)
}

/// Why line `i` is refused, where it is.
pub open spec fn fault(lines: Seq<Seq<char>>, i: int) -> Option<Seq<char>> {
    let h = header_before(lines, i);
    let key = key_at(lines, i);
    let value = value_at(lines, i);
    if is_header(lines, i) {
        let name = header_name(lines, i);
        if name != "Trigger"@ && name != "Action"@ {
            Some("invalid section "@ + name)
        } else {
            None
        }
    } else if !is_directive(lines, i) {
        None
    } else if h >= 0 && header_name(lines, h) == "Trigger"@ && (key == "Operation"@ || key
        == "Type"@ || key == "Target"@) {
        if key == "Operation"@ && value != "Install"@ && value != "Upgrade"@ && value != "Remove"@ {
            Some("invalid value "@ + value)
        } else if key == "Type"@ && value != "Package"@ && value != "Path"@ && value != "File"@ {
            Some("invalid value "@ + value)
        } else {
            None
        }
    } else if h >= 0 && header_name(lines, h) == "Action"@ && (key == "When"@ || key
        == "Description"@ || key == "Depends"@ || key == "AbortOnFail"@ || key == "NeedsTargets"@
        || key == "Exec"@) {
        if key == "When"@ && value != "PreTransaction"@ && value != "PostTransaction"@ {
            Some("invalid value "@ + value)
        } else if key == "Exec"@ && split_of(value) is Err {
            Some("invalid value: "@ + split_of(value)->Err_0.words())
        } else {
            None
        }
    } else {
        Some("invalid option "@ + key)
    }
}

// ---------------------------------------------------------------------------------------------
// Proofs

proof fn lemma_words()
    ensures
        "Trigger"@ != "Action"@,
        "Operation"@ != "Type"@,
        "Operation"@ != "Target"@,
        "Type"@ != "Target"@,
        "When"@ != "Description"@,
        "When"@ != "Depends"@,
        "When"@ != "AbortOnFail"@,
        "When"@ != "NeedsTargets"@,
        "When"@ != "Exec"@,
        "Description"@ != "Depends"@,
        "Description"@ != "AbortOnFail"@,
        "Description"@ != "NeedsTargets"@,
        "Description"@ != "Exec"@,
        "Depends"@ != "AbortOnFail"@,
        "Depends"@ != "NeedsTargets"@,
        "Depends"@ != "Exec"@,
        "AbortOnFail"@ != "NeedsTargets"@,
        "AbortOnFail"@ != "Exec"@,
        "NeedsTargets"@ != "Exec"@,
        "Install"@ != "Upgrade"@,
        "Install"@ != "Remove"@,
        "Upgrade"@ != "Remove"@,
        "Package"@ != "Path"@,
        "Package"@ != "File"@,
        "PreTransaction"@ != "PostTransaction"@,
{
    reveal_strlit("Trigger");
    reveal_strlit("Action");
    reveal_strlit("Operation");
    reveal_strlit("Type");
    reveal_strlit("Target");
    reveal_strlit("When");
    reveal_strlit("Description");
    reveal_strlit("Depends");
    reveal_strlit("AbortOnFail");
    reveal_strlit("NeedsTargets");
    reveal_strlit("Exec");
    reveal_strlit("Install");
    reveal_strlit("Upgrade");
    reveal_strlit("Remove");
    reveal_strlit("Package");
    reveal_strlit("Path");
    reveal_strlit("File");
    reveal_strlit("PreTransaction");
    reveal_strlit("PostTransaction");
    assert("Operation"@.len() == 9 && "Operation"@[0] == 'O');
    assert("Type"@.len() == 4 && "Type"@[0] == 'T');
    assert("Target"@.len() == 6 && "Target"@[0] == 'T');
    assert("When"@.len() == 4 && "When"@[0] == 'W');
    assert("Description"@.len() == 11 && "Description"@[0] == 'D');
    assert("Depends"@.len() == 7 && "Depends"@[0] == 'D');
    assert("AbortOnFail"@.len() == 11 && "AbortOnFail"@[0] == 'A');
    assert("NeedsTargets"@.len() == 12 && "NeedsTargets"@[0] == 'N');
    assert("Exec"@.len() == 4 && "Exec"@[0] == 'E');
    assert("Install"@.len() == 7 && "Install"@[0] == 'I');
    assert("Upgrade"@.len() == 7 && "Upgrade"@[0] == 'U');
    assert("Remove"@.len() == 6 && "Remove"@[0] == 'R');
    assert("Package"@.len() == 7 && "Package"@[0] == 'P');
    assert("Path"@.len() == 4 && "Path"@[0] == 'P');
    assert("File"@.len() == 4 && "File"@[0] == 'F');
    assert("PreTransaction"@.len() == 14 && "PreTransaction"@[0] == 'P');
    assert("PostTransaction"@.len() == 15 && "PostTransaction"@[0] == 'P');
    assert("Trigger"@.len() == 7 && "Trigger"@[0] == 'T');
    assert("Action"@.len() == 6 && "Action"@[0] == 'A');
}

proof fn lemma_header_before(lines: Seq<Seq<char>>, n: int)
    requires
        0 <= n <= lines.len(),
    ensures
        -1 <= header_before(lines, n) < n || (n == 0 && header_before(lines, n) == -1),
        header_before(lines, n) >= 0 ==> is_header(lines, header_before(lines, n)),
    decreases n,
{
    if n > 0 {
        lemma_header_before(lines, n - 1);
    }
}

proof fn lemma_heads(lines: Seq<Seq<char>>, n: int, k: int)
    requires
        0 <= n <= lines.len(),
        0 <= k < trigger_heads(lines, n).len(),
    ensures
        0 <= trigger_heads(lines, n)[k] <= header_before(lines, n) < n,
        k < trigger_heads(lines, n).len() - 1 ==> trigger_heads(lines, n)[k] < header_before(
            lines,
            n,
        ),
        header_name(lines, header_before(lines, n)) == "Trigger"@ && k == trigger_heads(
            lines,
            n,
        ).len() - 1 ==> trigger_heads(lines, n)[k] == header_before(lines, n),
    decreases n,
{
    if n > 0 {
        if k < trigger_heads(lines, n - 1).len() {
            lemma_heads(lines, n - 1, k);
        }
    }
}

/// Whether a section is the one that a line names.
spec fn is_section(lines: Seq<Seq<char>>, n: int, section: Option<Section>) -> bool {
    let h = header_before(lines, n);
    &&& section is None <==> h < 0
    &&& h >= 0 ==> (section == Some(Section::Trigger) <==> header_name(lines, h) == "Trigger"@)
    &&& h >= 0 ==> (section == Some(Section::Action) <==> header_name(lines, h) == "Action"@)
}

/// A directive adds to the picked values what it says, under its own key and section alone.
proof fn lemma_given(lines: Seq<Seq<char>>, n: int, h: int, key: Seq<char>, value: Seq<char>)
    requires
        0 <= n < lines.len(),
    ensures
        given(lines, n + 1, h, key) == if is_under(lines, h, n, key) {
            given(lines, n, h, key).push(value_at(lines, n))
        } else {
            given(lines, n, h, key)
        },
        given(lines, n + 1, h, key).contains(value) <==> given(lines, n, h, key).contains(value)
            || (is_under(lines, h, n, key) && value == value_at(lines, n)),
{
    lemma_push_holds(given(lines, n, h, key), value_at(lines, n), value);
}

/// A trigger that a line does not speak of stays what it was.
proof fn lemma_other_trigger(lines: Seq<Seq<char>>, n: int, h: int, trigger: TriggerView)
    requires
        0 <= n < lines.len(),
        is_trigger(lines, n, h, trigger),
        !is_directive(lines, n) || header_before(lines, n) != h,
    ensures
        is_trigger(lines, n + 1, h, trigger),
{
}

/// A directive makes of its trigger what the lines say.
proof fn lemma_trigger(
    lines: Seq<Seq<char>>,
    n: int,
    h: int,
    trigger: TriggerView,
    after: TriggerView,
)
    requires
        0 <= n < lines.len(),
        is_trigger(lines, n, h, trigger),
        is_directive(lines, n),
        header_before(lines, n) == h,
        crate::hook::parse::triggered_by(trigger, key_at(lines, n), value_at(lines, n)) == Ok::<
            TriggerView,
            Seq<char>,
        >(after),
    ensures
        is_trigger(lines, n + 1, h, after),
{
    lemma_words();
    lemma_given(lines, n, h, "Operation"@, "Install"@);
    lemma_given(lines, n, h, "Operation"@, "Upgrade"@);
    lemma_given(lines, n, h, "Operation"@, "Remove"@);
    lemma_given(lines, n, h, "Type"@, Seq::empty());
    lemma_given(lines, n, h, "Target"@, Seq::empty());
}

/// A new trigger says nothing yet.
proof fn lemma_new_trigger(lines: Seq<Seq<char>>, n: int, m: int, key: Seq<char>)
    requires
        0 <= n < lines.len(),
        m <= n + 1,
    ensures
        given(lines, m, n, key) == Seq::<Seq<char>>::empty(),
    decreases m,
{
    if m > 0 {
        lemma_new_trigger(lines, n, m - 1, key);
        lemma_header_before(lines, m - 1);
    }
}

/// A directive of `[Action]` adds what it says to its own key alone.
proof fn lemma_acts(lines: Seq<Seq<char>>, n: int, key: Seq<char>)
    requires
        0 <= n < lines.len(),
    ensures
        acts(lines, n + 1, key) == if is_action(lines, n, key) {
            acts(lines, n, key).push(value_at(lines, n))
        } else {
            acts(lines, n, key)
        },
{
}

proof fn lemma_all_acts(lines: Seq<Seq<char>>, n: int)
    requires
        0 <= n < lines.len(),
    ensures
        forall|key: Seq<char>| #[trigger]
            acts(lines, n + 1, key) == if is_action(lines, n, key) {
                acts(lines, n, key).push(value_at(lines, n))
            } else {
                acts(lines, n, key)
            },
{
    assert forall|key: Seq<char>| #[trigger] acts(lines, n + 1, key) == if is_action(
        lines,
        n,
        key,
    ) {
        acts(lines, n, key).push(value_at(lines, n))
    } else {
        acts(lines, n, key)
    } by {
        lemma_acts(lines, n, key);
    }
}

proof fn lemma_one_line(
    name: Seq<char>,
    lines: Seq<Seq<char>>,
    n: int,
    hook: HookView,
    section: Option<Section>,
)
    requires
        0 <= n < lines.len(),
        is_said(name, lines, n, hook),
        is_section(lines, n, section),
    ensures
        match line_of(lines[n]) {
            None => fault(lines, n) is None && is_said(name, lines, n + 1, hook) && is_section(
                lines,
                n + 1,
                section,
            ),
            Some(line) => match crate::hook::parse::after_line(hook, section, line) {
                Ok((after, next)) => fault(lines, n) is None && is_said(name, lines, n + 1, after)
                    && is_section(lines, n + 1, next),
                Err(reason) => fault(lines, n) == Some(reason),
            },
        },
{
    lemma_words();
    lemma_all_acts(lines, n);
    lemma_header_before(lines, n);
    let heads = trigger_heads(lines, n);
    let h = header_before(lines, n);
    let later = trigger_heads(lines, n + 1);
    if line_of(lines[n]) is None {
        assert(later == heads);
        assert forall|k: int| 0 <= k < heads.len() implies is_trigger(
            lines,
            n + 1,
            #[trigger] later[k],
            hook.triggers[k],
        ) by {
            assert(is_trigger(lines, n, heads[k], hook.triggers[k]));
            lemma_other_trigger(lines, n, heads[k], hook.triggers[k]);
        }
    } else if is_header(lines, n) {
        assert forall|k: int| 0 <= k < heads.len() implies is_trigger(
            lines,
            n + 1,
            #[trigger] heads[k],
            hook.triggers[k],
        ) by {
            lemma_other_trigger(lines, n, heads[k], hook.triggers[k]);
        }
        if header_name(lines, n) == "Trigger"@ {
            assert(later == heads.push(n));
            let blank = TriggerView {
                operations: Operations::spec_none(),
                kind: None,
                targets: Seq::empty(),
            };
            lemma_new_trigger(lines, n, n + 1, "Operation"@);
            lemma_new_trigger(lines, n, n + 1, "Type"@);
            lemma_new_trigger(lines, n, n + 1, "Target"@);
            assert(is_trigger(lines, n + 1, n, blank));
            assert forall|k: int| 0 <= k < later.len() implies is_trigger(
                lines,
                n + 1,
                #[trigger] later[k],
                hook.triggers.push(blank)[k],
            ) by {
                if k < heads.len() {
                    assert(later[k] == heads[k]);
                }
            }
        } else {
            assert(later == heads);
        }
    } else {
        assert(later == heads);
        let key = key_at(lines, n);
        let value = value_at(lines, n);
        if section == Some(Section::Trigger) {
            lemma_last_head(lines, n);
            let last = heads.len() - 1;
            lemma_heads(lines, n, last);
            assert(heads[last] == h);
            assert(is_trigger(lines, n, heads[last], hook.triggers[last]));
            assert(hook.triggers.last() == hook.triggers[last]);
            let result = crate::hook::parse::triggered_by(hook.triggers[last], key, value);
            if let Ok(trigger) = result {
                lemma_trigger(lines, n, h, hook.triggers[last], trigger);
                let triggers = hook.triggers.drop_last().push(trigger);
                assert forall|k: int| 0 <= k < later.len() implies is_trigger(
                    lines,
                    n + 1,
                    #[trigger] later[k],
                    triggers[k],
                ) by {
                    if k < last {
                        lemma_heads(lines, n, k);
                        assert(is_trigger(lines, n, heads[k], hook.triggers[k]));
                        lemma_other_trigger(lines, n, heads[k], hook.triggers[k]);
                    }
                }
                assert(!(h >= 0 && header_name(lines, h) == "Action"@));
            }
        } else {
            assert forall|k: int| 0 <= k < later.len() implies is_trigger(
                lines,
                n + 1,
                #[trigger] later[k],
                hook.triggers[k],
            ) by {
                lemma_heads(lines, n, k);
                lemma_is_trigger_head(lines, n, k);
                assert(is_trigger(lines, n, heads[k], hook.triggers[k]));
                lemma_other_trigger(lines, n, heads[k], hook.triggers[k]);
            }
        }
    }
}

proof fn lemma_last_head(lines: Seq<Seq<char>>, n: int)
    requires
        0 <= n <= lines.len(),
        header_before(lines, n) >= 0,
        header_name(lines, header_before(lines, n)) == "Trigger"@,
    ensures
        trigger_heads(lines, n).len() > 0,
    decreases n,
{
    if n > 0 && !is_header(lines, n - 1) {
        lemma_last_head(lines, n - 1);
    }
}

proof fn lemma_is_trigger_head(lines: Seq<Seq<char>>, n: int, k: int)
    requires
        0 <= n <= lines.len(),
        0 <= k < trigger_heads(lines, n).len(),
    ensures
        is_header(lines, trigger_heads(lines, n)[k]),
        header_name(lines, trigger_heads(lines, n)[k]) == "Trigger"@,
    decreases n,
{
    if n > 0 && k < trigger_heads(lines, n - 1).len() {
        lemma_is_trigger_head(lines, n - 1, k);
    }
}

proof fn lemma_all_lines(name: Seq<char>, lines: Seq<Seq<char>>, n: int)
    requires
        0 <= n <= lines.len(),
    ensures
        match after_lines(name, lines.take(n)) {
            Ok((hook, section)) => is_said(name, lines, n, hook) && is_section(lines, n, section)
                && forall|i: int| 0 <= i < n ==> #[trigger] fault(lines, i) is None,
            Err(reason) => exists|i: int|
                0 <= i < n && #[trigger] fault(lines, i) is Some && reason == "line "@ + text::dec(
                    (i + 1) as nat,
                ) + ": "@ + fault(lines, i)->0 && forall|k: int|
                    0 <= k < i ==> #[trigger] fault(lines, k) is None,
        },
    decreases n,
{
    if n > 0 {
        let last = n - 1;
        lemma_all_lines(name, lines, last);
        assert(lines.take(n).drop_last() =~= lines.take(last));
        assert(lines.take(n).last() == lines[last]);
        match after_lines(name, lines.take(last)) {
            Ok((hook, section)) => {
                lemma_one_line(name, lines, last, hook, section);
                if fault(lines, last) is Some {
                    assert(after_lines(name, lines.take(n)) is Err);
                }
            },
            Err(reason) => {
                let i = choose|i: int|
                    0 <= i < last && #[trigger] fault(lines, i) is Some && reason == "line "@
                        + text::dec((i + 1) as nat) + ": "@ + fault(lines, i)->0 && forall|k: int|
                        0 <= k < i ==> #[trigger] fault(lines, k) is None;
                assert(fault(lines, i) is Some);
            },
        }
    } else {
        assert(lines.take(0) =~= Seq::<Seq<char>>::empty());
        let hook = HookView::blank(name);
        assert(hook.depends =~= acts(lines, 0, "Depends"@));
    }
}

/// Whether a trigger says what it is for: a target, a kind and an operation.
pub open spec fn is_whole(trigger: TriggerView) -> bool {
    &&& trigger.targets.len() > 0
    &&& trigger.kind is Some
    &&& trigger.operations.install || trigger.operations.upgrade || trigger.operations.remove
}

proof fn lemma_lacking(hook: HookView, i: int)
    requires
        0 <= i <= hook.triggers.len(),
        forall|k: int| 0 <= k < i ==> is_whole(#[trigger] hook.triggers[k]),
    ensures
        crate::hook::parse::first_lacking(hook.triggers, i) is None <==> forall|k: int|
            0 <= k < hook.triggers.len() ==> is_whole(#[trigger] hook.triggers[k]),
        crate::hook::parse::first_lacking(hook.triggers, i) matches Some(reason) ==> exists|k: int|
            0 <= k < hook.triggers.len() && !is_whole(#[trigger] hook.triggers[k]) && lacks(
                hook.triggers[k],
                k,
                reason,
            ) && forall|j: int| 0 <= j < k ==> is_whole(#[trigger] hook.triggers[j]),
    decreases hook.triggers.len() - i,
{
    if i < hook.triggers.len() {
        let trigger = hook.triggers[i];
        if is_whole(trigger) {
            lemma_lacking(hook, i + 1);
        } else {
            assert(!is_whole(hook.triggers[i]));
            assert(lacks(trigger, i, crate::hook::parse::first_lacking(hook.triggers, i)->0));
        }
    }
}

/// Whether these are the words for what trigger `k` lacks: its target, then its kind, then its
/// operation.
pub open spec fn lacks(trigger: TriggerView, k: int, reason: Seq<char>) -> bool {
    reason == "trigger "@ + text::dec((k + 1) as nat) + if trigger.targets.len() == 0 {
        " has no Target"@
    } else if trigger.kind is None {
        " has no Type"@
    } else {
        " has no Operation"@
    }
}

/// A hook file is the hook that its lines say. It is refused at the first line that is refused, by
/// its number; and otherwise only where it has triggers and the first that lacks something, or its
/// command, or its time is missing.
pub proof fn a_hook_is_what_its_lines_say(name: Seq<char>, s: Seq<char>)
    ensures
        ({
            let lines = text::lines(s);
            let n = lines.len() as int;
            match hook_of(name, s) {
                Ok(hook) => {
                    &&& is_said(name, lines, n, hook)
                    &&& forall|i: int| 0 <= i < n ==> #[trigger] fault(lines, i) is None
                    &&& hook.triggers.len() > 0 ==> hook.command.len() > 0 && hook.when is Some
                    &&& forall|k: int|
                        0 <= k < hook.triggers.len() ==> is_whole(#[trigger] hook.triggers[k])
                },
                Err(reason) => {
                    ||| exists|i: int|
                        0 <= i < n && #[trigger] fault(lines, i) is Some && reason == "line "@
                            + text::dec((i + 1) as nat) + ": "@ + fault(lines, i)->0 && forall|
                            k: int,
                        |
                            0 <= k < i ==> #[trigger] fault(lines, k) is None
                    ||| exists|hook: HookView| #[trigger]
                        is_said(name, lines, n, hook) && is_flawed(hook, reason) && forall|i: int|
                            0 <= i < n ==> #[trigger] fault(lines, i) is None
                },
            }
        }),
{
    let lines = text::lines(s);
    let n = lines.len() as int;
    lemma_all_lines(name, lines, n);
    assert(lines.take(n) =~= lines);
    if let Ok((hook, section)) = after_lines(name, lines) {
        lemma_lacking(hook, 0);
        if let Some(reason) = flaw(hook) {
            assert(is_flawed(hook, reason));
            assert(is_said(name, lines, n, hook));
        }
    }
}

/// Whether a hook cannot run, for this reason.
pub open spec fn is_flawed(hook: HookView, reason: Seq<char>) -> bool {
    &&& hook.triggers.len() > 0
    &&& {
        ||| exists|k: int|
            0 <= k < hook.triggers.len() && !is_whole(#[trigger] hook.triggers[k]) && lacks(
                hook.triggers[k],
                k,
                reason,
            ) && forall|j: int| 0 <= j < k ==> is_whole(#[trigger] hook.triggers[j])
        ||| (forall|k: int| 0 <= k < hook.triggers.len() ==> is_whole(#[trigger] hook.triggers[k]))
            && hook.command.len() == 0 && reason == "it has no Exec"@
        ||| (forall|k: int| 0 <= k < hook.triggers.len() ==> is_whole(#[trigger] hook.triggers[k]))
            && hook.command.len() > 0 && hook.when is None && reason == "it has no When"@
    }
}

} // verus!
