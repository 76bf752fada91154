//! What a log is read as.

use vstd::prelude::*;

use crate::bytes;
use crate::history::pacman_log::{
    a_message_reads_back, action_of_message, command_of, dated, hook_of, line_of, lines_in, reading,
    start_of, tellable, LineView, Reading, SessionView,
};
use crate::history::{ActionView, OutcomeView};
use crate::laws::lists::{lemma_picks_agree, picks};
use crate::text;

verus! {

// ---------------------------------------------------------------------------------------------
// Messages

/// How the log spells an action.
pub open spec fn spelling(action: ActionView) -> Seq<char> {
    match action {
        ActionView::Installed { name, version } => "installed "@ + name + " ("@ + version + ")"@,
        ActionView::Reinstalled { name, version } => "reinstalled "@ + name + " ("@ + version
            + ")"@,
        ActionView::Removed { name, version } => "removed "@ + name + " ("@ + version + ")"@,
        ActionView::Upgraded { name, from, to } => "upgraded "@ + name + " ("@ + from + " -> "@ + to
            + ")"@,
        ActionView::Downgraded { name, from, to } => "downgraded "@ + name + " ("@ + from + " -> "@
            + to + ")"@,
    }
}

proof fn lemma_strip_prefix(s: Seq<char>, p: Seq<char>, rest: Seq<char>)
    ensures
        text::strip_prefix(s, p) == Some(rest) <==> s == p + rest,
{
    if text::strip_prefix(s, p) == Some(rest) {
        assert(s =~= s.take(p.len() as int) + s.skip(p.len() as int));
    }
    if s == p + rest {
        assert(s.take(p.len() as int) =~= p);
        assert(s.skip(p.len() as int) =~= rest);
    }
}

proof fn lemma_strip_suffix(s: Seq<char>, p: Seq<char>, rest: Seq<char>)
    ensures
        text::strip_suffix(s, p) == Some(rest) <==> s == rest + p,
{
    if text::strip_suffix(s, p) == Some(rest) {
        assert(s =~= s.take(s.len() - p.len()) + s.skip(s.len() - p.len()));
    }
    if s == rest + p {
        assert(s.skip(s.len() - p.len()) =~= p);
        assert(s.take(s.len() - p.len()) =~= rest);
    }
}

proof fn lemma_split_once(s: Seq<char>, c: char)
    ensures
        text::split_once(s, c) matches Some((a, b)) ==> s == a.push(c) + b && !a.contains(c),
{
    text::lemma_first(s, c);
    if let Some((a, b)) = text::split_once(s, c) {
        assert(s =~= a.push(c) + b);
    }
}

proof fn lemma_split_once_text(s: Seq<char>, p: Seq<char>)
    ensures
        text::split_once_text(s, p) matches Some((a, b)) ==> s == a + p + b,
{
    text::lemma_first_text(s, p);
    if let Some(i) = text::first_text(s, p) {
        assert(s.skip(i).take(p.len() as int) =~= p);
        assert forall|k: int| i <= k < i + p.len() implies s[k] == p[k - i] by {
            assert(s.skip(i).take(p.len() as int)[k - i] == p[k - i]);
        }
        assert(s =~= s.take(i) + p + s.skip(i + p.len()));
    }
}

/// A message is a command line where it is `Running '...'`, and what stands between the quotes is
/// the command line.
pub proof fn a_command_line_is_quoted(message: Seq<char>, command: Seq<char>)
    ensures
        command_of(message) == Some(command) <==> message == "Running '"@ + command + "'"@,
{
    let p = "Running '"@;
    let q = "'"@;
    let rest = message.skip(p.len() as int);
    lemma_strip_prefix(message, p, rest);
    lemma_strip_prefix(message, p, command + q);
    lemma_strip_suffix(rest, q, command);
    assert(p + command + q =~= p + (command + q));
}

/// A message names a hook where it is `running '...'...`, and what stands between the quotes is its
/// name.
pub proof fn a_hook_is_quoted(message: Seq<char>, name: Seq<char>)
    ensures
        hook_of(message) == Some(name) <==> message == "running '"@ + name + "'..."@,
{
    let p = "running '"@;
    let q = "'..."@;
    let rest = message.skip(p.len() as int);
    lemma_strip_prefix(message, p, rest);
    lemma_strip_prefix(message, p, name + q);
    lemma_strip_suffix(rest, q, name);
    assert(p + name + q =~= p + (name + q));
}

/// Whether a text is all white space.
pub open spec fn is_blank(s: Seq<char>) -> bool {
    forall|i: int| 0 <= i < s.len() ==> text::is_space(#[trigger] s[i])
}

proof fn lemma_trim_start(s: Seq<char>) -> (before: Seq<char>)
    ensures
        is_blank(before),
        s == before + text::trim_start(s),
    decreases s.len(),
{
    if s.len() > 0 && text::is_space(s[0]) {
        let rest = lemma_trim_start(s.skip(1));
        let before = seq![s[0]] + rest;
        assert(s =~= seq![s[0]] + s.skip(1));
        assert(s =~= before + text::trim_start(s));
        before
    } else {
        assert(s =~= Seq::<char>::empty() + s);
        Seq::empty()
    }
}

proof fn lemma_trim_end(s: Seq<char>) -> (after: Seq<char>)
    ensures
        is_blank(after),
        s == text::trim_end(s) + after,
    decreases s.len(),
{
    if s.len() > 0 && text::is_space(s.last()) {
        let rest = lemma_trim_end(s.drop_last());
        let after = rest.push(s.last());
        assert(s =~= s.drop_last().push(s.last()));
        assert(s =~= text::trim_end(s) + after);
        after
    } else {
        assert(s =~= s + Seq::<char>::empty());
        Seq::empty()
    }
}

/// A message starts a transaction where it begins with `transaction started`, and the id is what
/// stands in `(id ...)`.
pub proof fn a_start_may_carry_an_id(message: Seq<char>, id: Seq<char>)
    ensures
        start_of(message) is Some <==> text::starts_with(message, "transaction started"@),
        start_of("transaction started (id "@ + id + ")"@) == Some(Some(id)),
        start_of("transaction started"@) == Some(None::<Seq<char>>),
        start_of(message) == Some(Some(id)) ==> exists|before: Seq<char>, after: Seq<char>|
            is_blank(before) && is_blank(after) && message == #[trigger] ("transaction started"@
                + before + "(id "@ + id + ")"@ + after),
{
    reveal_strlit("transaction started");
    reveal_strlit("transaction started (id ");
    reveal_strlit("(id ");
    reveal_strlit(")");
    let p = "transaction started"@;
    let whole = "transaction started (id "@ + id + ")"@;
    let inner = "(id "@ + id + ")"@;
    let spaced = seq![' '] + inner;
    assert(whole =~= p + spaced);
    lemma_strip_prefix(whole, p, spaced);
    assert(spaced.skip(1) =~= inner);
    assert(text::trim_start(inner) == inner);
    assert(text::trim_start(spaced) == inner);
    assert(inner.last() == ')');
    assert(text::trim_end(inner) == inner);
    assert(inner =~= "(id "@ + (id + ")"@));
    lemma_strip_prefix(inner, "(id "@, id + ")"@);
    lemma_strip_suffix(id + ")"@, ")"@, id);
    let none = Seq::<char>::empty();
    assert(p =~= p + none);
    lemma_strip_prefix(p, p, none);
    assert(text::trim(none) == none);
    if start_of(message) == Some(Some(id)) {
        lemma_start_shape(message, id);
    }
}

proof fn lemma_start_shape(message: Seq<char>, id: Seq<char>)
    requires
        start_of(message) == Some(Some(id)),
    ensures
        exists|before: Seq<char>, after: Seq<char>|
            is_blank(before) && is_blank(after) && message == #[trigger] ("transaction started"@
                + before + "(id "@ + id + ")"@ + after),
{
    let p = "transaction started"@;
    let rest = text::strip_prefix(message, p)->0;
    lemma_strip_prefix(message, p, rest);
    let before = lemma_trim_start(rest);
    let after = lemma_trim_end(text::trim_start(rest));
    let core = text::trim(rest);
    let tail = text::strip_prefix(core, "(id "@)->0;
    lemma_strip_prefix(core, "(id "@, tail);
    lemma_strip_suffix(tail, ")"@, id);
    assert(message =~= p + before + "(id "@ + id + ")"@ + after);
}

/// The log writes an action as it is spelled, and reads no message as an action that is spelled
/// otherwise.
pub proof fn a_message_is_its_actions_spelling(action: ActionView, message: Seq<char>)
    ensures
        action.log_message() == spelling(action),
        action_of_message(message) == Some(action) ==> message == spelling(action),
        tellable(action) ==> action_of_message(spelling(action)) == Some(action),
{
    reveal_strlit("installed");
    reveal_strlit("reinstalled");
    reveal_strlit("removed");
    reveal_strlit("upgraded");
    reveal_strlit("downgraded");
    reveal_strlit("installed ");
    reveal_strlit("reinstalled ");
    reveal_strlit("removed ");
    reveal_strlit("upgraded ");
    reveal_strlit("downgraded ");
    reveal_strlit(" ");
    assert("installed "@ =~= "installed"@ + " "@);
    assert("reinstalled "@ =~= "reinstalled"@ + " "@);
    assert("removed "@ =~= "removed"@ + " "@);
    assert("upgraded "@ =~= "upgraded"@ + " "@);
    assert("downgraded "@ =~= "downgraded"@ + " "@);
    assert(action.log_message() =~= spelling(action));
    if tellable(action) {
        a_message_reads_back(action);
    }
    if action_of_message(message) == Some(action) {
        lemma_split_once(message, ' ');
        let (verb, rest) = text::split_once(message, ' ')->0;
        lemma_split_once_text(rest, " ("@);
        let (name, tail) = text::split_once_text(rest, " ("@)->0;
        let versions = text::strip_suffix(tail, ")"@)->0;
        lemma_strip_suffix(tail, ")"@, versions);
        lemma_split_once_text(versions, " -> "@);
        assert(verb.push(' ') =~= verb + " "@);
        assert(message =~= verb + " "@ + name + " ("@ + versions + ")"@);
        match action {
            ActionView::Upgraded { name: _, from, to } => {
                assert(versions == from + " -> "@ + to);
                assert(message =~= spelling(action));
            },
            ActionView::Downgraded { name: _, from, to } => {
                assert(versions == from + " -> "@ + to);
                assert(message =~= spelling(action));
            },
            _ => {
                assert(message =~= spelling(action));
            },
        }
    }
}

/// A line is `[stamp] [caller] message`: the stamp ends at the first bracket, and the caller at the
/// first bracket that a space follows.
pub proof fn a_line_has_its_parts_in_brackets(line: Seq<char>, said: LineView)
    ensures
        line_of(line) == Some(said) ==> exists|stamp: Seq<char>|
            !stamp.contains(']') && text::first_text(said.caller, "] "@) is None && said.timestamp
                == dated(stamp) && line == #[trigger] ("["@ + stamp + "] ["@ + said.caller + "] "@
                + said.message),
{
    if line_of(line) == Some(said) {
        reveal_strlit("[");
        reveal_strlit("] [");
        reveal_strlit("] ");
        reveal_strlit(" [");
        let rest = text::strip_prefix(line, "["@)->0;
        lemma_strip_prefix(line, "["@, rest);
        lemma_split_once(rest, ']');
        let (stamp, second) = text::split_once(rest, ']')->0;
        let third = text::strip_prefix(second, " ["@)->0;
        lemma_strip_prefix(second, " ["@, third);
        lemma_split_once_text(third, "] "@);
        let caller = said.caller;
        assert(line =~= "["@ + stamp + "] ["@ + caller + "] "@ + said.message);
        text::lemma_first_text(caller, "] "@);
        text::lemma_first_text(third, "] "@);
        if let Some(i) = text::first_text(caller, "] "@) {
            assert(third.skip(i).take(2) =~= caller.skip(i).take(2));
            assert(text::starts_with(third.skip(i), "] "@));
        }
    }
}

// ---------------------------------------------------------------------------------------------
// Sessions

/// Whether line `i` starts a transaction.
pub open spec fn is_start(lines: Seq<LineView>, i: int) -> bool {
    start_of(lines[i].message) is Some
}

/// Whether line `i` ends one.
pub open spec fn is_ending(lines: Seq<LineView>, i: int) -> bool {
    lines[i].message == "transaction completed"@ || lines[i].message == "transaction failed"@
}

/// Whether the transaction that line `s` starts is still running before line `n`.
pub open spec fn runs(lines: Seq<LineView>, s: int, n: int) -> bool {
    &&& 0 <= s < n
    &&& is_start(lines, s)
    &&& forall|k: int|
        s < k < n ==> !(#[trigger] is_start(lines, k)) && !is_ending(lines, k)
}

/// Whether line `i` is one of the transaction that line `s` starts.
pub open spec fn belongs(lines: Seq<LineView>, s: int, i: int) -> bool {
    runs(lines, s, i) && !is_start(lines, i)
}

/// Whether line `c` is the command line that a transaction which starts at `s` was started with:
/// the last before it, with no other start in between.
pub open spec fn waits(lines: Seq<LineView>, c: int, s: int) -> bool {
    &&& 0 <= c < s
    &&& command_of(lines[c].message) is Some
    &&& forall|k: int|
        c < k < s ==> !(#[trigger] is_start(lines, k)) && command_of(lines[k].message) is None
}

/// The actions that the lines of a transaction report, each once and in order.
pub open spec fn actions_told(lines: Seq<LineView>, s: int, n: int) -> Seq<ActionView> {
    picks(
        n,
        |i: int| belongs(lines, s, i) && action_of_message(lines[i].message) is Some,
        |i: int| action_of_message(lines[i].message)->0,
    )
}

/// The hooks that the lines of a transaction name, each once and in order.
pub open spec fn hooks_told(lines: Seq<LineView>, s: int, n: int) -> Seq<Seq<char>> {
    picks(
        n,
        |i: int| belongs(lines, s, i) && hook_of(lines[i].message) is Some,
        |i: int| hook_of(lines[i].message)->0,
    )
}

/// Whether a session is what the first `n` lines tell of the transaction that line `s` starts.
pub open spec fn is_told(lines: Seq<LineView>, s: int, n: int, session: SessionView) -> bool {
    &&& Some(session.id) == start_of(lines[s].message)
    &&& session.caller == lines[s].caller
    &&& session.started == lines[s].timestamp
    &&& session.actions == actions_told(lines, s, n)
    &&& session.hooks == hooks_told(lines, s, n)
    &&& forall|c: int| #[trigger]
        waits(lines, c, s) ==> session.command == command_of(lines[c].message)
    &&& session.command is Some ==> exists|c: int| #[trigger] waits(lines, c, s)
    &&& forall|e: int|
        0 <= e < n && #[trigger] belongs(lines, s, e) && is_ending(lines, e) ==> {
            &&& session.finished == lines[e].timestamp
            &&& lines[e].message == "transaction completed"@ ==> session.outcome
                == OutcomeView::Completed
            &&& lines[e].message == "transaction failed"@ ==> session.outcome == (OutcomeView::Failed {
                reason: "the log records a failed transaction"@,
            })
        }
    &&& (forall|e: int| 0 <= e < n && #[trigger] belongs(lines, s, e) ==> !is_ending(lines, e))
        ==> session.finished is None && session.outcome == OutcomeView::Interrupted
}

/// The lines that start transactions.
pub open spec fn starts(lines: Seq<LineView>, n: int) -> Seq<int> {
    picks(n, |i: int| is_start(lines, i), |i: int| i)
}

pub(crate) proof fn lemma_kinds(message: Seq<char>)
    ensures
        command_of(message) is Some ==> start_of(message) is None && hook_of(message) is None
            && action_of_message(message) is None && message != "transaction completed"@ && message
            != "transaction failed"@,
        start_of(message) is Some ==> hook_of(message) is None && action_of_message(message) is None
            && message != "transaction completed"@ && message != "transaction failed"@,
        message == "transaction completed"@ || message == "transaction failed"@ ==> hook_of(message)
            is None && action_of_message(message) is None,
        hook_of(message) is Some ==> action_of_message(message) is None,
        "transaction completed"@ != "transaction failed"@,
{
    reveal_strlit("transaction completed");
    reveal_strlit("transaction failed");
    reveal_strlit("transaction started");
    reveal_strlit("Running '");
    reveal_strlit("running '");
    reveal_strlit("installed ");
    reveal_strlit("reinstalled ");
    reveal_strlit("removed ");
    reveal_strlit("upgraded ");
    reveal_strlit("downgraded ");
    if let Some(command) = command_of(message) {
        a_command_line_is_quoted(message, command);
        assert(message[0] == 'R');
    }
    if start_of(message) is Some {
        let p = "transaction started"@;
        assert(message.take(p.len() as int)[0] == 't');
        assert(message.take(p.len() as int)[12] == 's');
        assert(message[0] == 't' && message[12] == 's');
    }
    if let Some(name) = hook_of(message) {
        a_hook_is_quoted(message, name);
        assert(message[0] == 'r' && message[1] == 'u');
    }
    if let Some(action) = action_of_message(message) {
        a_message_is_its_actions_spelling(action, message);
        assert(message[0] != 'R' && message[0] != 't');
        assert(message[0] == 'r' ==> message[1] == 'e');
    }
    assert("transaction completed"@[12] == 'c');
    assert("transaction failed"@[12] == 'f');
}

proof fn lemma_starts(lines: Seq<LineView>, n: int, k: int)
    requires
        0 <= k < starts(lines, n).len(),
        n <= lines.len(),
    ensures
        0 <= starts(lines, n)[k] < n,
        is_start(lines, starts(lines, n)[k]),
        forall|i: int|
            starts(lines, n)[k] < i < n && k == starts(lines, n).len() - 1 ==> !#[trigger] is_start(
                lines,
                i,
            ),
    decreases n,
{
    if n > 0 && !(is_start(lines, n - 1) && k == starts(lines, n).len() - 1) {
        lemma_starts(lines, n - 1, k);
    }
}

/// Whether a reader of the first `n` lines is where it should be.
spec fn has_read(lines: Seq<LineView>, n: int, r: Reading) -> bool {
    let at = starts(lines, n);
    &&& r.sessions().len() == at.len()
    &&& forall|k: int| 0 <= k < at.len() ==> is_told(lines, #[trigger] at[k], n, r.sessions()[k])
    &&& r.open is Some ==> at.len() > 0 && runs(lines, at.last(), n)
    &&& r.open is None ==> forall|s: int| !#[trigger] runs(lines, s, n)
    &&& forall|c: int| #[trigger] waits(lines, c, n) ==> r.command == command_of(lines[c].message)
    &&& r.command is Some ==> exists|c: int| #[trigger] waits(lines, c, n)
}

proof fn lemma_told_stays(lines: Seq<LineView>, s: int, n: int, session: SessionView)
    requires
        0 <= n < lines.len(),
        is_told(lines, s, n, session),
        !belongs(lines, s, n) || (!is_ending(lines, n) && hook_of(lines[n].message) is None
            && action_of_message(lines[n].message) is None),
    ensures
        is_told(lines, s, n + 1, session),
{
    assert((forall|e: int|
        0 <= e < n + 1 && #[trigger] belongs(lines, s, e) ==> !is_ending(lines, e)) ==> (forall|
        e: int,
    |
        0 <= e < n && #[trigger] belongs(lines, s, e) ==> !is_ending(lines, e)));
}

proof fn lemma_waits(lines: Seq<LineView>, n: int, r: Reading)
    requires
        0 <= n < lines.len(),
        has_read(lines, n, r),
    ensures
        ({
            let next = r.step(lines[n]);
            &&& forall|c: int| #[trigger]
                waits(lines, c, n + 1) ==> next.command == command_of(lines[c].message)
            &&& next.command is Some ==> exists|c: int| #[trigger] waits(lines, c, n + 1)
        }),
{
    let next = r.step(lines[n]);
    lemma_kinds(lines[n].message);
    assert forall|c: int| #[trigger] waits(lines, c, n + 1) implies next.command == command_of(
        lines[c].message,
    ) by {
        if c < n {
            assert(!is_start(lines, n));
            assert(waits(lines, c, n));
        }
    }
    if next.command is Some {
        if command_of(lines[n].message) is Some {
            assert(waits(lines, n, n + 1));
        } else {
            let c = choose|c: int| #[trigger] waits(lines, c, n);
            assert(waits(lines, c, n + 1));
        }
    }
}

proof fn lemma_read_one(lines: Seq<LineView>, n: int, r: Reading)
    requires
        0 <= n < lines.len(),
        has_read(lines, n, r),
    ensures
        has_read(lines, n + 1, r.step(lines[n])),
{
    let next = r.step(lines[n]);
    let line = lines[n];
    let at = starts(lines, n);
    let grown = starts(lines, n + 1);
    lemma_kinds(line.message);
    lemma_waits(lines, n, r);
    let last = at.len() - 1;
    assert forall|k: int| 0 <= k < at.len() && runs(lines, #[trigger] at[k], n) implies k == last
        && r.open is Some by {
        lemma_starts(lines, n, last);
        if k < last {
            lemma_starts_ascend(lines, n, k, last);
            assert(is_start(lines, at[last]));
        }
    }
    if is_start(lines, n) {
        assert(grown =~= at.push(n));
        let fresh = next.open->0;
        assert(next.sessions() =~= r.sessions().push(fresh));
        assert forall|k: int| 0 <= k < grown.len() implies is_told(
            lines,
            #[trigger] grown[k],
            n + 1,
            next.sessions()[k],
        ) by {
            if k < at.len() {
                assert(grown[k] == at[k]);
                assert(is_told(lines, at[k], n, r.sessions()[k]));
                lemma_told_stays(lines, at[k], n, r.sessions()[k]);
            } else {
                lemma_nothing_told(lines, n, n + 1);
                assert(is_told(lines, n, n + 1, fresh));
            }
        }
        assert(runs(lines, n, n + 1));
    } else {
        assert(grown == at);
        assert forall|k: int| 0 <= k < grown.len() implies is_told(
            lines,
            #[trigger] grown[k],
            n + 1,
            next.sessions()[k],
        ) by {
            let s = at[k];
            assert(is_told(lines, s, n, r.sessions()[k]));
            if !runs(lines, s, n) {
                lemma_told_stays(lines, s, n, r.sessions()[k]);
                assert(k != last || r.open is None || !runs(lines, at.last(), n));
                assert(next.sessions()[k] == r.sessions()[k]);
            } else {
                assert(belongs(lines, s, n));
                lemma_told_next(lines, s, n, r.sessions()[k], next.sessions()[k]);
            }
        }
        if next.open is Some {
            assert(runs(lines, at.last(), n + 1));
        } else {
            assert forall|s: int| !#[trigger] runs(lines, s, n + 1) by {
                if runs(lines, s, n + 1) {
                    if s < n {
                        assert(runs(lines, s, n));
                        assert(r.open is Some);
                        lemma_starts(lines, n, last);
                        if s < at.last() {
                            assert(is_start(lines, at.last()));
                        }
                        if at.last() < s {
                            assert(is_start(lines, s));
                        }
                        assert(is_ending(lines, n));
                        assert(!is_start(lines, n));
                    } else {
                        assert(is_start(lines, n));
                    }
                }
            }
        }
    }
}

proof fn lemma_starts_ascend(lines: Seq<LineView>, n: int, j: int, k: int)
    requires
        0 <= j < k < starts(lines, n).len(),
        n <= lines.len(),
    ensures
        starts(lines, n)[j] < starts(lines, n)[k],
    decreases n,
{
    if n > 0 {
        if is_start(lines, n - 1) && k == starts(lines, n).len() - 1 {
            lemma_starts(lines, n - 1, j);
        } else {
            lemma_starts_ascend(lines, n - 1, j, k);
        }
    }
}

proof fn lemma_nothing_told(lines: Seq<LineView>, s: int, n: int)
    requires
        n <= s + 1,
    ensures
        actions_told(lines, s, n) == Seq::<ActionView>::empty(),
        hooks_told(lines, s, n) == Seq::<Seq<char>>::empty(),
    decreases n,
{
    if n > 0 {
        lemma_nothing_told(lines, s, n - 1);
    }
}

/// What one line of a running transaction adds to its session.
proof fn lemma_told_next(
    lines: Seq<LineView>,
    s: int,
    n: int,
    session: SessionView,
    next: SessionView,
)
    requires
        0 <= n < lines.len(),
        is_told(lines, s, n, session),
        belongs(lines, s, n),
        ({
            let line = lines[n];
            if is_ending(lines, n) {
                &&& next.finished == line.timestamp
                &&& line.message == "transaction completed"@ ==> next.outcome
                    == OutcomeView::Completed
                &&& line.message == "transaction failed"@ ==> next.outcome == (OutcomeView::Failed {
                    reason: "the log records a failed transaction"@,
                })
                &&& next.actions == session.actions
                &&& next.hooks == session.hooks
            } else {
                &&& next.finished == session.finished
                &&& next.outcome == session.outcome
                &&& next.actions == match action_of_message(line.message) {
                    Some(action) => session.actions.push(action),
                    None => session.actions,
                }
                &&& next.hooks == match hook_of(line.message) {
                    Some(hook) => session.hooks.push(hook),
                    None => session.hooks,
                }
            }
        }),
        next.id == session.id,
        next.caller == session.caller,
        next.started == session.started,
        next.command == session.command,
    ensures
        is_told(lines, s, n + 1, next),
{
    lemma_kinds(lines[n].message);
    assert forall|e: int| 0 <= e < n && #[trigger] belongs(lines, s, e) implies !is_ending(
        lines,
        e,
    ) by {
        assert(!is_start(lines, e));
    }
}

proof fn lemma_read_all(lines: Seq<LineView>, n: int)
    requires
        0 <= n <= lines.len(),
    ensures
        has_read(lines, n, reading(lines.take(n))),
    decreases n,
{
    if n > 0 {
        lemma_read_all(lines, n - 1);
        lemma_read_one(lines, n - 1, reading(lines.take(n - 1)));
        assert(lines.take(n).drop_last() =~= lines.take(n - 1));
        assert(lines.take(n).last() == lines[n - 1]);
    } else {
        assert(lines.take(0) =~= Seq::<LineView>::empty());
    }
}

/// A log holds one session for each line that starts a transaction, in order. A session has what
/// its start says, the command line that waited for it, every action and every hook that its lines
/// report, in order, and the time and the outcome of its ending; without an ending it was
/// interrupted.
pub proof fn a_session_is_what_its_lines_tell(lines: Seq<LineView>)
    ensures
        ({
            let n = lines.len() as int;
            &&& reading(lines).sessions().len() == starts(lines, n).len()
            &&& forall|k: int|
                0 <= k < starts(lines, n).len() ==> is_told(
                    lines,
                    #[trigger] starts(lines, n)[k],
                    n,
                    reading(lines).sessions()[k],
                )
        }),
{
    let n = lines.len() as int;
    lemma_read_all(lines, n);
    assert(lines.take(n) =~= lines);
}

/// Whether a message says nothing of where a session begins or ends.
pub open spec fn is_inner(message: Seq<char>) -> bool {
    &&& !text::starts_with(message, "transaction started"@)
    &&& command_of(message) is None
    &&& message != "transaction completed"@
    &&& message != "transaction failed"@
}

/// A start, messages in between and an ending are one session, and its actions and hooks are exactly
/// those that the messages in between report, each once and in the order of the lines.
pub proof fn a_run_is_one_session(lines: Seq<LineView>)
    requires
        lines.len() >= 2,
        text::starts_with(lines[0].message, "transaction started"@),
        forall|i: int| 0 < i < lines.len() - 1 ==> is_inner((#[trigger] lines[i]).message),
        lines.last().message == "transaction completed"@ || lines.last().message
            == "transaction failed"@,
    ensures
        reading(lines).sessions().len() == 1,
        ({
            let session = reading(lines).sessions()[0];
            &&& session.actions == picks(
                lines.len() as int,
                |i: int| action_of_message(lines[i].message) is Some,
                |i: int| action_of_message(lines[i].message)->0,
            )
            &&& session.hooks == picks(
                lines.len() as int,
                |i: int| hook_of(lines[i].message) is Some,
                |i: int| hook_of(lines[i].message)->0,
            )
            &&& Some(session.id) == start_of(lines[0].message)
            &&& session.caller == lines[0].caller
            &&& session.started == lines[0].timestamp
            &&& session.finished == lines.last().timestamp
            &&& session.outcome is Completed <==> lines.last().message == "transaction completed"@
            &&& session.outcome is Failed <==> lines.last().message == "transaction failed"@
            &&& session.command is None
        }),
{
    let n = lines.len() as int;
    a_session_is_what_its_lines_tell(lines);
    assert forall|i: int| 0 <= i < n implies #[trigger] is_start(lines, i) == (i == 0) by {
        a_start_may_carry_an_id(lines[i].message, Seq::empty());
        lemma_kinds(lines[i].message);
    }
    lemma_only_start(lines, n);
    let session = reading(lines).sessions()[0];
    assert(starts(lines, n)[0] == 0);
    assert(is_told(lines, 0, n, session));
    assert forall|i: int| 0 <= i < n implies #[trigger] belongs(lines, 0, i) == (i > 0) by {
        if i > 0 {
            assert forall|k: int| 0 < k < i implies !(#[trigger] is_start(lines, k)) && !is_ending(
                lines,
                k,
            ) by {
                assert(is_inner(lines[k].message));
            }
            assert(is_start(lines, 0));
            assert(!is_start(lines, i));
        }
    }
    lemma_kinds(lines[0].message);
    assert(is_start(lines, 0));
    let reports = |i: int| action_of_message(lines[i].message) is Some;
    let names = |i: int| hook_of(lines[i].message) is Some;
    let told = |i: int| belongs(lines, 0, i) && action_of_message(lines[i].message) is Some;
    let named = |i: int| belongs(lines, 0, i) && hook_of(lines[i].message) is Some;
    let action = |i: int| action_of_message(lines[i].message)->0;
    let hook = |i: int| hook_of(lines[i].message)->0;
    assert forall|i: int| 0 <= i < n implies #[trigger] told(i) == reports(i) by {
        assert(belongs(lines, 0, i) == (i > 0));
    }
    assert forall|i: int| 0 <= i < n implies #[trigger] named(i) == names(i) by {
        assert(belongs(lines, 0, i) == (i > 0));
    }
    lemma_picks_agree(n, told, reports, action, action);
    lemma_picks_agree(n, named, names, hook, hook);
    assert(belongs(lines, 0, n - 1));
    assert(is_ending(lines, n - 1));
    lemma_kinds(lines[n - 1].message);
    if session.command is Some {
        let c = choose|c: int| #[trigger] waits(lines, c, 0);
        assert(false);
    }
}

proof fn lemma_only_start(lines: Seq<LineView>, n: int)
    requires
        1 <= n <= lines.len(),
        forall|i: int| 0 <= i < n ==> #[trigger] is_start(lines, i) == (i == 0),
    ensures
        starts(lines, n) == seq![0int],
    decreases n,
{
    if n > 1 {
        lemma_only_start(lines, n - 1);
        assert(!is_start(lines, n - 1));
    } else {
        assert(is_start(lines, 0));
        assert(starts(lines, 0) =~= Seq::<int>::empty());
        assert(starts(lines, 1) =~= seq![0int]);
    }
}

/// What was logged of a transaction, its start, its actions and its ending, reads back as a session
/// with its id and all of its actions.
pub proof fn a_logged_transaction_reads_back(
    lines: Seq<LineView>,
    id: Seq<char>,
    actions: Seq<ActionView>,
)
    requires
        lines.len() == actions.len() + 2,
        lines[0].message == "transaction started (id "@ + id + ")"@,
        forall|i: int|
            0 <= i < actions.len() ==> #[trigger] lines[i + 1].message == actions[i].log_message(),
        forall|i: int| 0 <= i < actions.len() ==> tellable(#[trigger] actions[i]),
        lines.last().message == "transaction completed"@ || lines.last().message
            == "transaction failed"@,
    ensures
        reading(lines).sessions().len() == 1,
        reading(lines).sessions()[0].id == Some(id),
        reading(lines).sessions()[0].actions == actions,
        reading(lines).sessions()[0].hooks.len() == 0,
{
    let n = lines.len() as int;
    a_start_may_carry_an_id(lines[0].message, id);
    lemma_kinds(lines[0].message);
    lemma_kinds(lines[n - 1].message);
    assert forall|i: int| 0 < i < n - 1 implies is_inner((#[trigger] lines[i]).message)
        && action_of_message(lines[i].message) == Some(actions[i - 1]) && hook_of(lines[i].message)
        is None by {
        assert(lines[i - 1 + 1].message == actions[i - 1].log_message());
        a_message_is_its_actions_spelling(actions[i - 1], lines[i].message);
        a_start_may_carry_an_id(lines[i].message, id);
        lemma_kinds(lines[i].message);
    }
    a_run_is_one_session(lines);
    let p = |i: int| action_of_message(lines[i].message) is Some;
    let f = |i: int| action_of_message(lines[i].message)->0;
    let h = |i: int| hook_of(lines[i].message) is Some;
    let g = |i: int| hook_of(lines[i].message)->0;
    lemma_picks_run(n - 1, p, f, actions);
    assert(!p(n - 1));
    assert forall|i: int| 0 <= i < n implies !#[trigger] h(i) by {
        if 0 < i < n - 1 {
            assert(is_inner(lines[i].message));
        }
    }
    lemma_picks_none(n, h, g);
    assert(actions.take(n - 2) =~= actions);
}

proof fn lemma_picks_run<A>(n: int, p: spec_fn(int) -> bool, f: spec_fn(int) -> A, all: Seq<A>)
    requires
        1 <= n <= all.len() + 1,
        !p(0),
        forall|i: int| 0 < i < n ==> #[trigger] p(i),
        forall|i: int| 0 < i < n ==> #[trigger] f(i) == all[i - 1],
    ensures
        picks(n, p, f) == all.take(n - 1),
    decreases n,
{
    if n > 1 {
        lemma_picks_run(n - 1, p, f, all);
        assert(p(n - 1));
        assert(all.take(n - 1) =~= all.take(n - 2).push(all[n - 2]));
    } else {
        assert(picks(0, p, f) =~= Seq::<A>::empty());
        assert(all.take(0) =~= Seq::<A>::empty());
    }
}

proof fn lemma_picks_none<A>(n: int, p: spec_fn(int) -> bool, f: spec_fn(int) -> A)
    requires
        forall|i: int| 0 <= i < n ==> !#[trigger] p(i),
    ensures
        picks(n, p, f).len() == 0,
    decreases n,
{
    if n > 0 {
        lemma_picks_none(n - 1, p, f);
    }
}

/// A log file is read line by line: each that is text and has its leader is there, in order, and
/// nothing else.
pub proof fn a_log_is_its_readable_lines(lines: Seq<Seq<u8>>)
    ensures
        lines_in(lines) == picks(
            lines.len() as int,
            |i: int|
                bytes::text_in(lines[i]) is Some && line_of(bytes::text_in(lines[i])->0) is Some,
            |i: int| line_of(bytes::text_in(lines[i])->0)->0,
        ),
    decreases lines.len(),
{
    if lines.len() > 0 {
        let fewer = lines.drop_last();
        a_log_is_its_readable_lines(fewer);
        lemma_picks_agree(
            lines.len() - 1,
            |i: int|
                bytes::text_in(fewer[i]) is Some && line_of(bytes::text_in(fewer[i])->0) is Some,
            |i: int|
                bytes::text_in(lines[i]) is Some && line_of(bytes::text_in(lines[i])->0) is Some,
            |i: int| line_of(bytes::text_in(fewer[i])->0)->0,
            |i: int| line_of(bytes::text_in(lines[i])->0)->0,
        );
    }
}

} // verus!
