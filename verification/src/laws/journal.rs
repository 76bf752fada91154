//! What a journal says of an interrupted transaction, and what finishes it.

use vstd::prelude::*;

use crate::journal::{index_of, intent_of, recorded, IntentView, RecordView, ReinstallView};
use crate::laws::lists::{lemma_picks_hold, picks};
use crate::package;
use crate::package::{file_name_of, EntryNameView, InstallReason};
use crate::text;

verus! {

/// Whether the journal says that step `i` completed.
pub open spec fn is_done(record: RecordView, i: int) -> bool {
    exists|k: int| 0 <= k < record.completed.len() && record.completed[k] as int == i
}

/// Whether step `i` is the first that did not complete.
pub open spec fn is_cut(record: RecordView, i: int) -> bool {
    !is_done(record, i) && forall|k: int| 0 <= k < i ==> #[trigger] is_done(record, k)
}

/// The file that step `i` installs.
pub open spec fn package_of(record: RecordView, i: int) -> Seq<char> {
    match record.steps[i] {
        IntentView::Install { package, .. } => package,
        IntentView::Remove { entry } => entry,
    }
}

/// The reason that the journal gives step `i`.
pub open spec fn reason_of(record: RecordView, i: int) -> Option<InstallReason> {
    match record.steps[i] {
        IntentView::Install { package: _, reason } => reason,
        IntentView::Remove { .. } => None,
    }
}

/// Whether step `i` installs a file whose name can be read.
pub open spec fn installs(record: RecordView, i: int) -> bool {
    record.steps[i] is Install && file_name_of(package_of(record, i)) is Some
}

/// What step `i` installs: the package that the file's name says, for the reason of the step.
pub open spec fn installed(record: RecordView, i: int) -> ReinstallView {
    ReinstallView {
        name: file_name_of(package_of(record, i))->0.name,
        reason: reason_of(record, i),
    }
}

/// Whether the database still holds the entry that step `i` removes: the first package of its name
/// is there, at its version.
pub open spec fn still_there(record: RecordView, local: Seq<EntryNameView>, i: int) -> bool {
    let name = package::entry_of(package_of(record, i))->0.name;
    exists|j: int|
        0 <= j < local.len() && (#[trigger] local[j]).name == name && local[j].name.push('-')
            + local[j].version == package_of(record, i) && forall|k: int|
            0 <= k < j ==> (#[trigger] local[k]).name != name
}

/// Whether step `i` removes an entry whose name can be read and that is still there.
pub open spec fn removes(record: RecordView, local: Seq<EntryNameView>, i: int) -> bool {
    &&& record.steps[i] is Remove
    &&& package::entry_of(package_of(record, i)) is Some
    &&& still_there(record, local, i)
}

/// Whether the name in step `i` cannot be read.
pub open spec fn is_unreadable(record: RecordView, i: int) -> bool {
    match record.steps[i] {
        IntentView::Install { package, .. } => file_name_of(package) is None,
        IntentView::Remove { entry } => package::entry_of(entry) is None,
    }
}

proof fn lemma_done(record: RecordView, i: int)
    requires
        0 <= i <= usize::MAX,
    ensures
        is_done(record, i) == !record.is_outstanding(i),
{
    if record.completed.contains(i as usize) {
        let k = choose|k: int|
            0 <= k < record.completed.len() && record.completed[k] == i as usize;
        assert(record.completed[k] as int == i);
    }
    if is_done(record, i) {
        let k = choose|k: int|
            0 <= k < record.completed.len() && record.completed[k] as int == i;
        assert(record.completed[k] == i as usize);
    }
}

proof fn lemma_first(record: RecordView, i: int)
    requires
        0 <= i <= record.steps.len() <= usize::MAX,
        forall|k: int| 0 <= k < i ==> #[trigger] is_done(record, k),
    ensures
        forall|k: int| 0 <= k < record.first_outstanding(i) ==> #[trigger] is_done(record, k),
        i <= record.first_outstanding(i) <= record.steps.len(),
        record.first_outstanding(i) < record.steps.len() ==> !is_done(
            record,
            record.first_outstanding(i),
        ),
    decreases record.steps.len() - i,
{
    if i < record.steps.len() {
        lemma_done(record, i);
        if !record.is_outstanding(i) {
            lemma_first(record, i + 1);
        }
    }
}

proof fn lemma_cut(record: RecordView, i: int)
    requires
        0 <= i < record.steps.len() <= usize::MAX,
    ensures
        is_cut(record, i) <==> i == record.first_outstanding(0),
{
    lemma_first(record, 0);
    let first = record.first_outstanding(0);
    if is_cut(record, i) && first < i {
        assert(is_done(record, first));
    }
    if is_cut(record, i) && i < first {
        assert(is_done(record, i));
    }
}

proof fn lemma_recorded(local: Seq<EntryNameView>, name: Seq<char>, entry: Seq<char>)
    ensures
        recorded(local, name, entry) <==> exists|j: int|
            0 <= j < local.len() && (#[trigger] local[j]).name == name && local[j].name.push('-')
                + local[j].version == entry && forall|k: int|
                0 <= k < j ==> (#[trigger] local[k]).name != name,
    decreases local.len(),
{
    if local.len() > 0 {
        let rest = local.skip(1);
        lemma_recorded(rest, name, entry);
        assert(local[0].directory() =~= local[0].name.push('-') + local[0].version);
        if local[0].name == name {
            if recorded(local, name, entry) {
                assert(local[0].name == name);
            }
        } else {
            if recorded(rest, name, entry) {
                let j = choose|j: int|
                    0 <= j < rest.len() && (#[trigger] rest[j]).name == name && rest[j].name.push(
                        '-',
                    ) + rest[j].version == entry && forall|k: int|
                        0 <= k < j ==> (#[trigger] rest[k]).name != name;
                assert(local[j + 1] == rest[j]);
                assert forall|k: int| 0 <= k < j + 1 implies (#[trigger] local[k]).name != name by {
                    if k > 0 {
                        assert(local[k] == rest[k - 1]);
                    }
                }
            }
            if exists|j: int|
                0 <= j < local.len() && (#[trigger] local[j]).name == name && local[j].name.push(
                    '-',
                ) + local[j].version == entry && forall|k: int|
                    0 <= k < j ==> (#[trigger] local[k]).name != name {
                let j = choose|j: int|
                    0 <= j < local.len() && (#[trigger] local[j]).name == name
                        && local[j].name.push('-') + local[j].version == entry && forall|k: int|
                        0 <= k < j ==> (#[trigger] local[k]).name != name;
                assert(rest[j - 1] == local[j]);
                assert forall|k: int| 0 <= k < j - 1 implies (#[trigger] rest[k]).name != name by {
                    assert(rest[k] == local[k + 1]);
                }
            }
        }
    }
}

/// What is left of the first `n` steps of a transaction is exactly what did not complete. The first
/// step that did not, where it installs, was cut. Every other install comes back in order, for the
/// reason its own step gives; every removal whose entry is still there comes back in order; and
/// what cannot be read is reported in order.
pub proof fn what_did_not_complete_is_left(
    record: RecordView,
    local: Seq<EntryNameView>,
    n: int,
)
    requires
        0 <= n <= record.steps.len() <= usize::MAX,
    ensures
        record.recovery(local, n).install == picks(
            n,
            |i: int| !is_done(record, i) && !is_cut(record, i) && installs(record, i),
            |i: int| installed(record, i),
        ),
        record.recovery(local, n).remove == picks(
            n,
            |i: int| !is_done(record, i) && removes(record, local, i),
            |i: int| package::entry_of(package_of(record, i))->0.name,
        ),
        record.recovery(local, n).unreadable == picks(
            n,
            |i: int| !is_done(record, i) && is_unreadable(record, i),
            |i: int| package_of(record, i),
        ),
        forall|i: int|
            0 <= i < n && is_cut(record, i) && installs(record, i) ==> record.recovery(
                local,
                n,
            ).interrupted == Some(#[trigger] installed(record, i)),
        record.recovery(local, n).interrupted is Some ==> exists|i: int|
            0 <= i < n && #[trigger] is_cut(record, i) && installs(record, i),
    decreases n,
{
    if n > 0 {
        let i = n - 1;
        what_did_not_complete_is_left(record, local, i);
        lemma_done(record, i);
        lemma_cut(record, i);
        if let IntentView::Remove { entry } = record.steps[i] {
            if let Some(parsed) = package::entry_of(entry) {
                lemma_recorded(local, parsed.name, entry);
            }
        }
        let now = record.recovery(local, n);
        let before = record.recovery(local, i);
        assert forall|k: int| 0 <= k < n && is_cut(record, k) && installs(record, k) implies
            now.interrupted == Some(#[trigger] installed(record, k)) by {
            lemma_cut(record, k);
        }
        if now.interrupted is Some && !(is_cut(record, i) && installs(record, i)) {
            let k = choose|k: int|
                0 <= k < i && #[trigger] is_cut(record, k) && installs(record, k);
            assert(is_cut(record, k));
        }
    }
}

/// A step that comes back as an install carries its own reason, whichever step it is.
pub proof fn an_install_comes_back_for_its_own_reason(
    record: RecordView,
    local: Seq<EntryNameView>,
    i: int,
)
    requires
        0 <= i < record.steps.len() <= usize::MAX,
        !is_done(record, i),
        installs(record, i),
    ensures
        ({
            let recovery = record.recovery(local, record.steps.len() as int);
            let target = ReinstallView {
                name: file_name_of(package_of(record, i))->0.name,
                reason: reason_of(record, i),
            };
            if is_cut(record, i) {
                recovery.interrupted == Some(target)
            } else {
                recovery.install.contains(target)
            }
        }),
{
    let n = record.steps.len() as int;
    what_did_not_complete_is_left(record, local, n);
    let p = |k: int| !is_done(record, k) && !is_cut(record, k) && installs(record, k);
    let f = |k: int| installed(record, k);
    lemma_picks_hold(n, p, f, installed(record, i));
    assert(record.recovery(local, n).install == picks(n, p, f));
    if is_cut(record, i) {
        assert(record.recovery(local, n).interrupted == Some(installed(record, i)));
    } else {
        assert(installed(record, i) == f(i));
    }
}

/// The steps that are outstanding are those that did not complete, in order.
pub proof fn what_is_outstanding_did_not_complete(record: RecordView, n: int)
    requires
        0 <= n <= record.steps.len() <= usize::MAX,
    ensures
        record.outstanding(n) == picks(
            n,
            |i: int| !is_done(record, i),
            |i: int| record.steps[i],
        ),
    decreases n,
{
    if n > 0 {
        what_is_outstanding_did_not_complete(record, n - 1);
        lemma_done(record, n - 1);
    }
}

// ---------------------------------------------------------------------------------------------
// Lines

/// What follows the first word of line `i`, after one space.
pub open spec fn value_at(lines: Seq<Seq<char>>, i: int, word: Seq<char>) -> Seq<char> {
    lines[i].skip(word.len() as int)
}

/// Whether line `i` is a step whose intent can be read.
pub open spec fn is_step(lines: Seq<Seq<char>>, i: int) -> bool {
    text::starts_with(lines[i], "step "@) && intent_at(lines, i) is Some
}

/// The intent of a step's line: what follows its index.
pub open spec fn intent_at(lines: Seq<Seq<char>>, i: int) -> Option<IntentView> {
    match text::split_once(value_at(lines, i, "step "@), ' ') {
        Some((_, rest)) => intent_of(rest),
        None => None,
    }
}

/// The intents of the steps among the first `n` lines, in order.
pub open spec fn intents(lines: Seq<Seq<char>>, n: int) -> Seq<IntentView> {
    picks(n, |i: int| is_step(lines, i), |i: int| intent_at(lines, i)->0)
}

/// Whether line `i` says why step `k`, which was met before it, is carried out.
pub open spec fn gives_reason(lines: Seq<Seq<char>>, i: int, k: int) -> bool {
    let parts = text::split_once(value_at(lines, i, "reason "@), ' ');
    &&& text::starts_with(lines[i], "reason "@)
    &&& parts is Some
    &&& index_of((parts->0).0) is Some
    &&& index_of((parts->0).0)->0 == k
    &&& 0 <= k < intents(lines, i).len()
}

/// The reasons that the first `n` lines give step `k`, in order.
pub open spec fn reasons(lines: Seq<Seq<char>>, n: int, k: int) -> Seq<Option<InstallReason>> {
    picks(
        n,
        |i: int| gives_reason(lines, i, k),
        |i: int|
            crate::journal::reason_of(
                (text::split_once(value_at(lines, i, "reason "@), ' ')->0).1,
            ),
    )
}

/// The values of the lines that start with a word, in order.
pub open spec fn valued(lines: Seq<Seq<char>>, n: int, word: Seq<char>) -> Seq<Seq<char>> {
    picks(n, |i: int| text::starts_with(lines[i], word), |i: int| value_at(lines, i, word))
}

/// Whether step `k` is what its line says, for the last reason that it is given.
pub open spec fn is_step_of(
    lines: Seq<Seq<char>>,
    n: int,
    k: int,
    step: IntentView,
) -> bool {
    let intent = intents(lines, n)[k];
    match intent {
        IntentView::Remove { .. } => step == intent,
        IntentView::Install { package, reason: _ } => step == (IntentView::Install {
            package,
            reason: if reasons(lines, n, k).len() > 0 {
                reasons(lines, n, k).last()
            } else {
                None
            },
        }),
    }
}

/// Whether a record is what the first `n` lines behind the header say: the last root and database,
/// every step in order, for the last reason it is given, whether the transaction began, and every
/// step that completed.
pub open spec fn is_journal(lines: Seq<Seq<char>>, n: int, record: RecordView) -> bool {
    let roots = valued(lines, n, "root "@);
    let dbpaths = valued(lines, n, "dbpath "@);
    &&& roots.len() > 0 ==> record.root == roots.last()
    &&& roots.len() == 0 ==> record.root.len() == 0
    &&& dbpaths.len() > 0 ==> record.dbpath == dbpaths.last()
    &&& dbpaths.len() == 0 ==> record.dbpath.len() == 0
    &&& record.steps.len() == intents(lines, n).len()
    &&& forall|k: int|
        0 <= k < record.steps.len() ==> is_step_of(lines, n, k, #[trigger] record.steps[k])
    &&& record.begun <==> exists|i: int| 0 <= i < n && #[trigger] lines[i] == "begin"@
    &&& record.completed == picks(
        n,
        |i: int|
            text::starts_with(lines[i], "done "@) && index_of(value_at(lines, i, "done "@)) is Some,
        |i: int| index_of(value_at(lines, i, "done "@))->0,
    )
}

/// What a line starts with tells its kind.
proof fn lemma_kind(line: Seq<char>)
    ensures
        text::starts_with(line, "root "@) ==> line[0] == 'r' && line[1] == 'o',
        text::starts_with(line, "dbpath "@) ==> line[0] == 'd' && line[1] == 'b',
        text::starts_with(line, "step "@) ==> line[0] == 's' && line[1] == 't',
        text::starts_with(line, "reason "@) ==> line[0] == 'r' && line[1] == 'e',
        text::starts_with(line, "done "@) ==> line[0] == 'd' && line[1] == 'o',
        line == "begin"@ ==> line[0] == 'b' && line[1] == 'e',
        "root "@.len() == 5,
        "dbpath "@.len() == 7,
        "step "@.len() == 5,
        "reason "@.len() == 7,
        "done "@.len() == 5,
{
    reveal_strlit("root ");
    reveal_strlit("dbpath ");
    reveal_strlit("step ");
    reveal_strlit("reason ");
    reveal_strlit("done ");
    reveal_strlit("begin");
    if text::starts_with(line, "root "@) {
        assert(line.take(5)[0] == line[0] && line.take(5)[1] == line[1]);
    }
    if text::starts_with(line, "dbpath "@) {
        assert(line.take(7)[0] == line[0] && line.take(7)[1] == line[1]);
    }
    if text::starts_with(line, "step "@) {
        assert(line.take(5)[0] == line[0] && line.take(5)[1] == line[1]);
    }
    if text::starts_with(line, "reason "@) {
        assert(line.take(7)[0] == line[0] && line.take(7)[1] == line[1]);
    }
    if text::starts_with(line, "done "@) {
        assert(line.take(5)[0] == line[0] && line.take(5)[1] == line[1]);
    }
}

/// An intent that was just read has no reason.
proof fn lemma_intent_is_bare(lines: Seq<Seq<char>>, i: int)
    requires
        is_step(lines, i),
    ensures
        intent_at(lines, i)->0 is Install ==> reason_in(intent_at(lines, i)->0) is None,
{
}

/// The reason of an intent.
pub open spec fn reason_in(intent: IntentView) -> Option<InstallReason> {
    match intent {
        IntentView::Install { package: _, reason } => reason,
        IntentView::Remove { .. } => None,
    }
}

/// Nothing gives a step a reason before the step is met.
proof fn lemma_no_reason_yet(lines: Seq<Seq<char>>, n: int, m: int, k: int)
    requires
        0 <= m <= n,
        k >= intents(lines, n).len(),
    ensures
        reasons(lines, m, k).len() == 0,
        intents(lines, m).len() <= intents(lines, n).len(),
    decreases n, m,
{
    if m > 0 {
        lemma_no_reason_yet(lines, n, m - 1, k);
    }
    lemma_intents_grow(lines, m, n);
    if m > 0 {
        lemma_intents_grow(lines, m - 1, n);
    }
}

proof fn lemma_intents_grow(lines: Seq<Seq<char>>, m: int, n: int)
    requires
        0 <= m <= n,
    ensures
        intents(lines, m).len() <= intents(lines, n).len(),
    decreases n - m,
{
    if m < n {
        lemma_intents_grow(lines, m, n - 1);
    }
}

proof fn lemma_line(lines: Seq<Seq<char>>, n: int, record: RecordView)
    requires
        0 <= n < lines.len(),
        is_journal(lines, n, record),
    ensures
        is_journal(lines, n + 1, crate::journal::applied(record, lines[n])),
{
    let line = lines[n];
    let after = crate::journal::applied(record, line);
    lemma_kind(line);
    let before = intents(lines, n);
    let now = intents(lines, n + 1);
    if line == "begin"@ {
        assert(lines[n] == "begin"@);
    } else if record.begun {
        let i = choose|i: int| 0 <= i < n && #[trigger] lines[i] == "begin"@;
        assert(lines[i] == "begin"@);
    }
    if is_step(lines, n) {
        assert(after.steps == record.steps.push(intent_at(lines, n)->0));
        assert(now == before.push(intent_at(lines, n)->0));
        let last = before.len() as int;
        lemma_no_reason_yet(lines, n, n, last);
        lemma_intent_is_bare(lines, n);
        assert(reasons(lines, n + 1, last) == reasons(lines, n, last));
        assert forall|k: int| 0 <= k < after.steps.len() implies is_step_of(
            lines,
            n + 1,
            k,
            #[trigger] after.steps[k],
        ) by {
            assert(reasons(lines, n + 1, k) == reasons(lines, n, k));
            if k < last {
                assert(after.steps[k] == record.steps[k]);
                assert(is_step_of(lines, n, k, record.steps[k]));
                assert(now[k] == before[k]);
            }
        }
    } else {
        assert(now == before);
        assert forall|k: int| 0 <= k < after.steps.len() implies is_step_of(
            lines,
            n + 1,
            k,
            #[trigger] after.steps[k],
        ) by {
            assert(is_step_of(lines, n, k, record.steps[k]));
            if gives_reason(lines, n, k) {
                assert(reasons(lines, n + 1, k) == reasons(lines, n, k).push(
                    crate::journal::reason_of(
                        (text::split_once(value_at(lines, n, "reason "@), ' ')->0).1,
                    ),
                ));
            } else {
                assert(reasons(lines, n + 1, k) == reasons(lines, n, k));
                assert(after.steps[k] == record.steps[k]);
            }
        }
    }
}

/// The lines behind the header of a journal are the record that they say.
pub proof fn a_journal_is_what_its_lines_say(lines: Seq<Seq<char>>, n: int)
    requires
        0 <= n <= lines.len(),
    ensures
        is_journal(lines, n, crate::journal::run(crate::journal::blank(), lines.take(n))),
    decreases n,
{
    if n > 0 {
        a_journal_is_what_its_lines_say(lines, n - 1);
        assert(lines.take(n).drop_last() =~= lines.take(n - 1));
        assert(lines.take(n).last() == lines[n - 1]);
        lemma_line(
            lines,
            n - 1,
            crate::journal::run(crate::journal::blank(), lines.take(n - 1)),
        );
    } else {
        assert(lines.take(0) =~= Seq::<Seq<char>>::empty());
    }
}

} // verus!
