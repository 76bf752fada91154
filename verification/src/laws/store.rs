//! What the history store is read as.

use vstd::prelude::*;

use crate::history::pacman_log::dated;
use crate::history::store::{header_of, outcome_of, Reading};
use crate::history::{action_of_line, ActionView, EntryView, OutcomeView};
use crate::laws::lists::picks;
use crate::text;

verus! {

/// Whether a line is one of a keyword: the keyword alone, or with a space and a value behind it.
pub open spec fn is_keyed(line: Seq<char>, keyword: Seq<char>) -> bool {
    line == keyword || text::starts_with(line, keyword.push(' '))
}

/// The value of a line of a keyword.
pub open spec fn value_of(line: Seq<char>, keyword: Seq<char>) -> Seq<char> {
    if line == keyword {
        Seq::empty()
    } else {
        line.skip(keyword.len() as int + 1)
    }
}

/// Whether a line is one of a keyword that is no verb.
pub open spec fn is_other(line: Seq<char>) -> bool {
    ||| is_keyed(line, "root"@)
    ||| is_keyed(line, "dbpath"@)
    ||| is_keyed(line, "command"@)
    ||| is_keyed(line, "pacnew"@)
    ||| is_keyed(line, "pacsave"@)
    ||| is_keyed(line, "hook"@)
    ||| is_keyed(line, "end"@)
}

/// The values of the lines of a keyword behind the first line, in order.
pub open spec fn values(lines: Seq<Seq<char>>, n: int, keyword: Seq<char>) -> Seq<Seq<char>> {
    picks(
        n,
        |i: int| i > 0 && is_keyed(lines[i], keyword),
        |i: int| value_of(lines[i], keyword),
    )
}

/// The actions that the lines behind the first tell, in order.
pub open spec fn actions(lines: Seq<Seq<char>>, n: int) -> Seq<ActionView> {
    picks(
        n,
        |i: int| i > 0 && !is_other(lines[i]) && action_of_line(lines[i]) is Some,
        |i: int| action_of_line(lines[i])->0,
    )
}

/// Whether an entry is what the first `n` lines of its block say.
pub open spec fn is_block(
    id: Seq<char>,
    started: i64,
    lines: Seq<Seq<char>>,
    n: int,
    entry: EntryView,
) -> bool {
    let roots = values(lines, n, "root"@);
    let dbpaths = values(lines, n, "dbpath"@);
    let commands = values(lines, n, "command"@);
    let ends = values(lines, n, "end"@);
    &&& entry.id == id
    &&& entry.started == started
    &&& entry.root == if roots.len() > 0 {
        roots.last()
    } else {
        Seq::empty()
    }
    &&& entry.dbpath == if dbpaths.len() > 0 {
        dbpaths.last()
    } else {
        Seq::empty()
    }
    &&& entry.command == if commands.len() > 0 {
        Some(commands.last())
    } else {
        None
    }
    &&& entry.actions == actions(lines, n)
    &&& entry.pacnew == values(lines, n, "pacnew"@)
    &&& entry.pacsave == values(lines, n, "pacsave"@)
    &&& entry.hooks == values(lines, n, "hook"@)
    &&& ends.len() > 0 ==> is_end(ends.last(), entry.finished, entry.outcome)
    &&& ends.len() == 0 ==> entry.finished is None && entry.outcome == OutcomeView::Interrupted
}

/// Whether an ending says when and how a transaction ended: an outcome, and where they are there a
/// time and a reason behind it.
pub open spec fn is_end(
    value: Seq<char>,
    finished: Option<i64>,
    outcome: OutcomeView,
) -> bool {
    match text::split_once(value, ' ') {
        None => finished is None && is_outcome(value, None, outcome),
        Some((word, rest)) => match text::split_once(rest, ' ') {
            None => finished == dated(rest) && is_outcome(word, None, outcome),
            Some((stamp, reason)) => finished == dated(stamp) && is_outcome(
                word,
                Some(reason),
                outcome,
            ),
        },
    }
}

/// Whether an outcome is the one that a word names. A word that names none is an interruption.
pub open spec fn is_outcome(
    word: Seq<char>,
    reason: Option<Seq<char>>,
    outcome: OutcomeView,
) -> bool {
    &&& outcome == OutcomeView::Completed <==> word == "completed"@
    &&& outcome == OutcomeView::Cancelled <==> word == "cancelled"@
    &&& outcome is Failed <==> word == "failed"@
    &&& word == "failed"@ && reason is Some ==> outcome == (OutcomeView::Failed {
        reason: reason->0,
    })
    &&& word == "failed"@ && reason is None ==> outcome == (OutcomeView::Failed {
        reason: "the transaction failed"@,
    })
}

proof fn lemma_outcome(word: Seq<char>, reason: Option<Seq<char>>)
    ensures
        is_outcome(word, reason, outcome_of(word, reason)),
{
    reveal_strlit("completed");
    reveal_strlit("cancelled");
    reveal_strlit("failed");
    assert("completed"@[1] == 'o');
    assert("cancelled"@[1] == 'a');
    assert("failed"@[0] == 'f');
    assert("completed"@[0] == 'c');
    assert("cancelled"@[0] == 'c');
}

proof fn lemma_keyword(line: Seq<char>, keyword: Seq<char>)
    requires
        !keyword.contains(' '),
    ensures
        is_keyed(line, keyword) <==> crate::history::store::keyword_of(line).0 == keyword,
        is_keyed(line, keyword) ==> crate::history::store::keyword_of(line).1 == value_of(
            line,
            keyword,
        ),
{
    text::lemma_first(line, ' ');
    let n = keyword.len() as int;
    if line == keyword {
        text::lemma_split_whole(line, ' ');
    } else if text::starts_with(line, keyword.push(' ')) {
        let rest = line.skip(n + 1);
        assert(line =~= keyword.push(' ') + rest) by {
            assert forall|k: int| 0 <= k < n + 1 implies line[k] == keyword.push(' ')[k] by {
                assert(line.take(n + 1)[k] == line[k]);
            }
        }
        text::lemma_split_head(keyword, ' ', rest);
    }
    if crate::history::store::keyword_of(line).0 == keyword && line != keyword {
        assert(text::split_once(line, ' ') is Some);
        assert(line.take(n + 1) =~= keyword.push(' '));
    }
}

proof fn lemma_keywords(line: Seq<char>)
    ensures
        forall|keyword: Seq<char>| #[trigger]
            is_keyed(line, keyword) && !keyword.contains(' ') ==> crate::history::store::keyword_of(
                line,
            ) == (keyword, value_of(line, keyword)),
        !"root"@.contains(' '),
        !"dbpath"@.contains(' '),
        !"command"@.contains(' '),
        !"pacnew"@.contains(' '),
        !"pacsave"@.contains(' '),
        !"hook"@.contains(' '),
        !"end"@.contains(' '),
        is_keyed(line, "root"@) == (crate::history::store::keyword_of(line).0 == "root"@),
        is_keyed(line, "dbpath"@) == (crate::history::store::keyword_of(line).0 == "dbpath"@),
        is_keyed(line, "command"@) == (crate::history::store::keyword_of(line).0 == "command"@),
        is_keyed(line, "pacnew"@) == (crate::history::store::keyword_of(line).0 == "pacnew"@),
        is_keyed(line, "pacsave"@) == (crate::history::store::keyword_of(line).0 == "pacsave"@),
        is_keyed(line, "hook"@) == (crate::history::store::keyword_of(line).0 == "hook"@),
        is_keyed(line, "end"@) == (crate::history::store::keyword_of(line).0 == "end"@),
{
    reveal_strlit("root");
    reveal_strlit("dbpath");
    reveal_strlit("command");
    reveal_strlit("pacnew");
    reveal_strlit("pacsave");
    reveal_strlit("hook");
    reveal_strlit("end");
    lemma_keyword(line, "root"@);
    lemma_keyword(line, "dbpath"@);
    lemma_keyword(line, "command"@);
    lemma_keyword(line, "pacnew"@);
    lemma_keyword(line, "pacsave"@);
    lemma_keyword(line, "hook"@);
    lemma_keyword(line, "end"@);
    assert forall|keyword: Seq<char>| #[trigger]
        is_keyed(line, keyword) && !keyword.contains(' ') implies crate::history::store::keyword_of(
        line,
    ) == (keyword, value_of(line, keyword)) by {
        lemma_keyword(line, keyword);
    }
}

proof fn lemma_differ()
    ensures
        "root"@ != "dbpath"@,
        "root"@ != "command"@,
        "root"@ != "pacnew"@,
        "root"@ != "pacsave"@,
        "root"@ != "hook"@,
        "root"@ != "end"@,
        "dbpath"@ != "command"@,
        "dbpath"@ != "pacnew"@,
        "dbpath"@ != "pacsave"@,
        "dbpath"@ != "hook"@,
        "dbpath"@ != "end"@,
        "command"@ != "pacnew"@,
        "command"@ != "pacsave"@,
        "command"@ != "hook"@,
        "command"@ != "end"@,
        "pacnew"@ != "pacsave"@,
        "pacnew"@ != "hook"@,
        "pacnew"@ != "end"@,
        "pacsave"@ != "hook"@,
        "pacsave"@ != "end"@,
        "hook"@ != "end"@,
{
    reveal_strlit("root");
    reveal_strlit("dbpath");
    reveal_strlit("command");
    reveal_strlit("pacnew");
    reveal_strlit("pacsave");
    reveal_strlit("hook");
    reveal_strlit("end");
    assert("root"@.len() == 4 && "root"@[0] == 'r');
    assert("dbpath"@.len() == 6 && "dbpath"@[0] == 'd');
    assert("command"@.len() == 7 && "command"@[0] == 'c');
    assert("pacnew"@.len() == 6 && "pacnew"@[0] == 'p');
    assert("pacsave"@.len() == 7 && "pacsave"@[0] == 'p');
    assert("hook"@.len() == 4 && "hook"@[0] == 'h');
    assert("end"@.len() == 3 && "end"@[0] == 'e');
}

proof fn lemma_one_line(
    id: Seq<char>,
    started: i64,
    lines: Seq<Seq<char>>,
    n: int,
    entry: EntryView,
)
    requires
        0 < n < lines.len(),
        is_block(id, started, lines, n, entry),
    ensures
        is_block(id, started, lines, n + 1, crate::history::store::applied(entry, lines[n])),
{
    let line = lines[n];
    lemma_keywords(line);
    lemma_differ();
    let (keyword, value) = crate::history::store::keyword_of(line);
    if keyword == "end"@ {
        let (word, rest) = match text::split_once(value, ' ') {
            Some(parts) => parts,
            None => (value, Seq::empty()),
        };
        lemma_outcome(value, None);
        lemma_outcome(word, None);
        if let Some((stamp, reason)) = text::split_once(rest, ' ') {
            lemma_outcome(word, Some(reason));
        }
        let after = crate::history::store::applied(entry, line);
        assert(is_end(value, after.finished, after.outcome));
        assert(values(lines, n + 1, "end"@).last() == value);
    }
}

/// A block says what its lines say: each value under its own keyword, the last of those that an
/// entry has one of, and every action in order. What has no ending was interrupted.
pub proof fn a_block_is_what_its_lines_say(lines: Seq<Seq<char>>, id: Seq<char>, started: i64, n: int)
    requires
        1 <= n <= lines.len(),
        text::starts_with(lines[0], "txn "@),
        header_of(lines[0].skip(4)) == Some((id, started)),
        forall|i: int| 0 < i < n ==> !text::starts_with(#[trigger] lines[i], "txn "@),
    ensures
        Reading::start().run(lines.take(n)).done.len() == 0,
        Reading::start().run(lines.take(n)).open is Some,
        is_block(id, started, lines, n, Reading::start().run(lines.take(n)).open->0),
    decreases n,
{
    reveal_strlit("txn ");
    let last = n - 1;
    assert(lines.take(n).drop_last() =~= lines.take(last));
    assert(lines.take(n).last() == lines[last]);
    if n == 1 {
        assert(lines.take(0) =~= Seq::<Seq<char>>::empty());
        let entry = Reading::start().run(lines.take(n)).open->0;
        lemma_no_values(lines);
        assert(actions(lines, 1) == actions(lines, 0));
    } else {
        a_block_is_what_its_lines_say(lines, id, started, last);
        lemma_one_line(
            id,
            started,
            lines,
            last,
            Reading::start().run(lines.take(last)).open->0,
        );
    }
}

proof fn lemma_no_values(lines: Seq<Seq<char>>)
    ensures
        forall|keyword: Seq<char>| #[trigger]
            values(lines, 1, keyword) == Seq::<Seq<char>>::empty(),
{
    assert forall|keyword: Seq<char>| #[trigger]
        values(lines, 1, keyword) == Seq::<Seq<char>>::empty() by {
        assert(values(lines, 0, keyword) == Seq::<Seq<char>>::empty());
        assert(values(lines, 1, keyword) == values(lines, 0, keyword));
    }
}

proof fn lemma_run_add(start: Reading, a: Seq<Seq<char>>, b: Seq<Seq<char>>)
    ensures
        start.run(a + b) == start.run(a).run(b),
    decreases b.len(),
{
    if b.len() > 0 {
        lemma_run_add(start, a, b.drop_last());
        assert((a + b).drop_last() =~= a + b.drop_last());
        assert((a + b).last() == b.last());
    } else {
        assert(a + b =~= a);
    }
}

proof fn lemma_after_start(before: Reading, lines: Seq<Seq<char>>)
    requires
        lines.len() > 0,
        text::starts_with(lines[0], "txn "@),
    ensures
        before.run(lines).done == before.entries() + Reading::start().run(lines).done,
        before.run(lines).open == Reading::start().run(lines).open,
    decreases lines.len(),
{
    let fewer = lines.drop_last();
    if lines.len() == 1 {
        assert(fewer =~= Seq::<Seq<char>>::empty());
        assert(lines.last() == lines[0]);
        assert(before.run(lines).done =~= before.entries() + Reading::start().run(lines).done);
    } else {
        assert(fewer[0] == lines[0]);
        lemma_after_start(before, fewer);
        let a = before.run(fewer);
        let b = Reading::start().run(fewer);
        assert(a.entries() =~= before.entries() + b.entries());
    }
}

/// Blocks are read one by one: what a block says does not depend on what comes before it.
pub proof fn blocks_are_read_one_by_one(before: Seq<Seq<char>>, block: Seq<Seq<char>>)
    requires
        block.len() > 0,
        text::starts_with(block[0], "txn "@),
    ensures
        Reading::start().run(before + block).entries() == Reading::start().run(before).entries()
            + Reading::start().run(block).entries(),
{
    let start = Reading::start();
    lemma_run_add(start, before, block);
    lemma_after_start(start.run(before), block);
    assert(start.run(before + block).entries() =~= start.run(before).entries() + start.run(
        block,
    ).entries());
}

/// A block starts with its version, its id and its time, and one of another version is not read.
pub proof fn a_header_is_a_version_an_id_and_a_time(
    version: Seq<char>,
    id: Seq<char>,
    stamp: Seq<char>,
)
    requires
        text::is_word(version),
        text::is_word(id),
        text::is_word(stamp),
    ensures
        text::unsigned(version) == Some(1int) && dated(stamp) is Some ==> header_of(
            version.push(' ') + (id.push(' ') + stamp),
        ) == Some((id, dated(stamp)->0)),
        text::unsigned(version) != Some(1int) || dated(stamp) is None ==> header_of(
            version.push(' ') + (id.push(' ') + stamp),
        ) is None,
{
    let tail = id.push(' ') + stamp;
    text::lemma_words_head(version, tail);
    text::lemma_words_head(id, stamp);
    text::lemma_words_whole(stamp);
    let w = text::words(version.push(' ') + tail);
    assert(w =~= seq![version, id, stamp]);
}

} // verus!
