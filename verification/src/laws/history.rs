//! What a history tells of the transactions that the log and the store know.

use vstd::prelude::*;

use crate::history::pacman_log::SessionView;
use crate::history::{
    all_records, by_time, history_of, index_of_id, insert_by_key, join_all, latest, newest,
    without_id, ActionView, EntryView, Query, RecordView,
};
use crate::laws::lists::{lemma_filter_holds, lemma_filter_push, lemma_picks_agree, picks};

verus! {

// ---------------------------------------------------------------------------------------------
// Joining

/// Whether entry `i` is the last of its id among the first `m`.
pub open spec fn counts(entries: Seq<EntryView>, i: int, m: int) -> bool {
    &&& 0 <= i < m
    &&& forall|j: int| i < j < m ==> (#[trigger] entries[j]).id != entries[i].id
}

/// Whether one of the first `k` sessions has an id.
pub open spec fn is_taken(sessions: Seq<SessionView>, k: int, id: Seq<char>) -> bool {
    exists|j: int| 0 <= j < k && (#[trigger] sessions[j]).id == Some(id)
}

/// The entries that count and that none of the first `k` sessions has taken, in order.
pub open spec fn untaken(sessions: Seq<SessionView>, k: int, entries: Seq<EntryView>) -> Seq<
    EntryView,
> {
    picks(
        entries.len() as int,
        |i: int|
            counts(entries, i, entries.len() as int) && !is_taken(sessions, k, entries[i].id),
        |i: int| entries[i],
    )
}

/// Whether session `k` and entry `i` tell of one transaction: the first session of an id, and the
/// last entry of it.
pub open spec fn is_pair(
    sessions: Seq<SessionView>,
    entries: Seq<EntryView>,
    k: int,
    i: int,
) -> bool {
    &&& counts(entries, i, entries.len() as int)
    &&& sessions[k].id == Some(entries[i].id)
    &&& !is_taken(sessions, k, entries[i].id)
}

/// Whether a record is what a session and its entry tell: the entry's account, under the session's
/// tool, at the session's times where it has them.
pub open spec fn is_both(record: RecordView, session: SessionView, entry: EntryView) -> bool {
    &&& record.id == Some(entry.id)
    &&& record.tool == session.caller
    &&& session.started is Some ==> record.started == session.started
    &&& session.started is None ==> record.started == Some(entry.started)
    &&& session.finished is Some ==> record.finished == session.finished
    &&& session.finished is None ==> record.finished == entry.finished
    &&& entry.command is Some ==> record.command == entry.command
    &&& entry.command is None ==> record.command == session.command
    &&& record.actions == entry.actions
    &&& record.hooks == entry.hooks
    &&& record.pacnew == entry.pacnew
    &&& record.pacsave == entry.pacsave
    &&& record.outcome == entry.outcome
    &&& record.detailed
}

/// Whether a record is what a session alone tells.
pub open spec fn is_of_session(record: RecordView, session: SessionView) -> bool {
    &&& record.id == session.id
    &&& record.tool == session.caller
    &&& record.started == session.started
    &&& record.finished == session.finished
    &&& record.command == session.command
    &&& record.actions == session.actions
    &&& record.hooks == session.hooks
    &&& record.pacnew.len() == 0
    &&& record.pacsave.len() == 0
    &&& record.outcome == session.outcome
    &&& !record.detailed
}

/// Whether a record is what an entry alone tells.
pub open spec fn is_of_entry(record: RecordView, entry: EntryView) -> bool {
    &&& record.id == Some(entry.id)
    &&& record.tool == "PIKO"@
    &&& record.started == Some(entry.started)
    &&& record.finished == entry.finished
    &&& record.command == entry.command
    &&& record.actions == entry.actions
    &&& record.hooks == entry.hooks
    &&& record.pacnew == entry.pacnew
    &&& record.pacsave == entry.pacsave
    &&& record.outcome == entry.outcome
    &&& record.detailed
}

proof fn lemma_index(pool: Seq<EntryView>, id: Seq<char>)
    ensures
        0 <= index_of_id(pool, id) <= pool.len(),
        forall|j: int| 0 <= j < index_of_id(pool, id) ==> (#[trigger] pool[j]).id != id,
        index_of_id(pool, id) < pool.len() ==> pool[index_of_id(pool, id)].id == id,
    decreases pool.len(),
{
    if pool.len() > 0 && pool[0].id != id {
        lemma_index(pool.skip(1), id);
        assert forall|j: int| 0 <= j < index_of_id(pool, id) implies (#[trigger] pool[j]).id
            != id by {
            if j > 0 {
                assert(pool[j] == pool.skip(1)[j - 1]);
            }
        }
    }
}

proof fn lemma_without_push(pool: Seq<EntryView>, last: EntryView, id: Seq<char>)
    ensures
        without_id(pool.push(last), id) == if index_of_id(pool, id) < pool.len() {
            without_id(pool, id).push(last)
        } else if last.id == id {
            pool
        } else {
            pool.push(last)
        },
{
    let more = pool.push(last);
    lemma_index(pool, id);
    lemma_index(more, id);
    let i = index_of_id(pool, id);
    let j = index_of_id(more, id);
    if i < pool.len() {
        assert(more[i] == pool[i]);
        if j < i {
            assert(pool[j] == more[j]);
        }
        assert(i == j);
        assert(more.remove(j) =~= pool.remove(i).push(last));
    } else {
        if j < pool.len() {
            assert(pool[j] == more[j]);
        }
        if j < more.len() {
            assert(more.remove(j) =~= pool);
        } else {
            assert(more[pool.len() as int].id != id);
        }
    }
}

/// Taking out an id that at most one of the picked entries has.
proof fn lemma_without(
    entries: Seq<EntryView>,
    n: int,
    p: spec_fn(int) -> bool,
    q: spec_fn(int) -> bool,
    id: Seq<char>,
)
    requires
        0 <= n <= entries.len(),
        forall|i: int, j: int|
            0 <= i < j < n && #[trigger] p(i) && #[trigger] p(j) ==> entries[i].id != entries[j].id,
        forall|i: int| 0 <= i < n ==> #[trigger] q(i) == (p(i) && entries[i].id != id),
    ensures
        ({
            let f = |i: int| entries[i];
            let pool = picks(n, p, f);
            &&& without_id(pool, id) == picks(n, q, f)
            &&& index_of_id(pool, id) < pool.len() <==> exists|i: int|
                0 <= i < n && #[trigger] p(i) && entries[i].id == id
            &&& forall|i: int|
                0 <= i < n && #[trigger] p(i) && entries[i].id == id ==> pool[index_of_id(pool, id)]
                    == entries[i]
        }),
    decreases n,
{
    let f = |i: int| entries[i];
    let pool = picks(n, p, f);
    if n == 0 {
        assert(without_id(pool, id) =~= picks(n, q, f));
    } else {
        let last = n - 1;
        lemma_without(entries, last, p, q, id);
        let before = picks(last, p, f);
        lemma_index(before, id);
        lemma_index(pool, id);
        if p(last) {
            assert(pool == before.push(entries[last]));
            lemma_without_push(before, entries[last], id);
            let at = index_of_id(pool, id);
            let was = index_of_id(before, id);
            if was < before.len() {
                assert(pool[was] == before[was]);
                if at < was {
                    assert(pool[at] == before[at]);
                }
                assert(at == was);
                let i = choose|i: int| 0 <= i < last && #[trigger] p(i) && entries[i].id == id;
                assert(p(i));
                assert(entries[last].id != id);
            } else {
                if at < before.len() {
                    assert(pool[at] == before[at]);
                }
                if entries[last].id == id {
                    assert(pool[before.len() as int].id == id);
                    assert(at == before.len());
                    assert(without_id(before, id) == before);
                } else {
                    assert(without_id(before, id) == before);
                    if at < pool.len() {
                        assert(at == before.len());
                        assert(pool[at].id == entries[last].id);
                    }
                }
            }
        } else {
            assert(pool == before);
        }
    }
}

proof fn lemma_latest(entries: Seq<EntryView>, n: int)
    requires
        0 <= n <= entries.len(),
    ensures
        latest(entries.take(n)) == picks(
            n,
            |i: int| counts(entries, i, n),
            |i: int| entries[i],
        ),
    decreases n,
{
    let f = |i: int| entries[i];
    if n > 0 {
        let last = n - 1;
        lemma_latest(entries, last);
        assert(entries.take(n).drop_last() =~= entries.take(last));
        assert(entries.take(n).last() == entries[last]);
        let p = |i: int| counts(entries, i, last);
        let q = |i: int| counts(entries, i, n);
        assert forall|i: int| 0 <= i < last implies #[trigger] q(i) == (p(i) && entries[i].id
            != entries[last].id) by {
            if counts(entries, i, n) {
                assert(entries[last].id != entries[i].id);
            }
        }
        assert forall|i: int, j: int|
            0 <= i < j < last && #[trigger] p(i) && #[trigger] p(j) implies entries[i].id
            != entries[j].id by {
            assert(entries[j].id != entries[i].id);
        }
        lemma_without(entries, last, p, q, entries[last].id);
        assert(q(last));
    } else {
        assert(entries.take(0) =~= Seq::<EntryView>::empty());
    }
}

proof fn lemma_join(sessions: Seq<SessionView>, entries: Seq<EntryView>, k: int)
    requires
        0 <= k <= sessions.len(),
    ensures
        ({
            let (records, left) = join_all(sessions.take(k), latest(entries));
            &&& records.len() == k
            &&& left == untaken(sessions, k, entries)
            &&& forall|s: int, i: int|
                0 <= s < k && #[trigger] is_pair(sessions, entries, s, i) ==> is_both(
                    records[s],
                    sessions[s],
                    entries[i],
                )
            &&& forall|s: int|
                0 <= s < k && (forall|i: int| !#[trigger] is_pair(sessions, entries, s, i))
                    ==> is_of_session(#[trigger] records[s], sessions[s])
        }),
    decreases k,
{
    let m = entries.len() as int;
    let f = |i: int| entries[i];
    lemma_latest(entries, m);
    assert(entries.take(m) =~= entries);
    if k == 0 {
        assert(sessions.take(0) =~= Seq::<SessionView>::empty());
        lemma_picks_agree(
            m,
            |i: int| counts(entries, i, m),
            |i: int| counts(entries, i, m) && !is_taken(sessions, 0, entries[i].id),
            f,
            f,
        );
    } else {
        let last = k - 1;
        let session = sessions[last];
        lemma_join(sessions, entries, last);
        assert(sessions.take(k).drop_last() =~= sessions.take(last));
        assert(sessions.take(k).last() == session);
        let (before, pool) = join_all(sessions.take(last), latest(entries));
        let (records, left) = join_all(sessions.take(k), latest(entries));
        let p = |i: int| counts(entries, i, m) && !is_taken(sessions, last, entries[i].id);
        let q = |i: int| counts(entries, i, m) && !is_taken(sessions, k, entries[i].id);
        assert forall|i: int| 0 <= i < m implies #[trigger] q(i) == (p(i) && session.id != Some(
            entries[i].id,
        )) by {
            let id = entries[i].id;
            if is_taken(sessions, last, id) {
                let j = choose|j: int| 0 <= j < last && (#[trigger] sessions[j]).id == Some(id);
                assert(sessions[j].id == Some(id));
                assert(is_taken(sessions, k, id));
            }
            if session.id == Some(id) {
                assert(sessions[last].id == Some(id));
                assert(is_taken(sessions, k, id));
            }
            if is_taken(sessions, k, id) {
                let j = choose|j: int| 0 <= j < k && (#[trigger] sessions[j]).id == Some(id);
                assert(j == last || is_taken(sessions, last, id));
            }
        }
        assert forall|i: int, j: int|
            0 <= i < j < m && #[trigger] p(i) && #[trigger] p(j) implies entries[i].id
            != entries[j].id by {
            assert(entries[j].id != entries[i].id);
        }
        match session.id {
            Some(id) => {
                lemma_without(entries, m, p, q, id);
                lemma_index(pool, id);
                let at = index_of_id(pool, id);
                if at < pool.len() {
                    assert(left == without_id(pool, id));
                    let i = choose|i: int| 0 <= i < m && #[trigger] p(i) && entries[i].id == id;
                    assert(p(i));
                    assert(is_pair(sessions, entries, last, i));
                    assert(is_both(records[last], session, entries[i]));
                    assert forall|j: int| #[trigger] is_pair(
                        sessions,
                        entries,
                        last,
                        j,
                    ) implies j == i by {
                        assert(p(j));
                        if i < j {
                            assert(entries[j].id != entries[i].id);
                        }
                    }
                } else {
                    assert(left == pool);
                    assert(without_id(pool, id) == pool);
                    assert forall|j: int| !#[trigger] is_pair(sessions, entries, last, j) by {
                        if is_pair(sessions, entries, last, j) {
                            assert(p(j));
                        }
                    }
                    assert(is_of_session(records[last], session));
                }
            },
            None => {
                lemma_picks_agree(m, p, q, f, f);
                assert(is_of_session(records[last], session));
            },
        }
        assert forall|s: int, i: int|
            0 <= s < k && #[trigger] is_pair(sessions, entries, s, i) implies is_both(
            records[s],
            sessions[s],
            entries[i],
        ) by {
            if s < last {
                assert(records[s] == before[s]);
            }
        }
        assert forall|s: int|
            0 <= s < k && (forall|i: int| !#[trigger] is_pair(sessions, entries, s, i)) implies
            is_of_session(#[trigger] records[s], sessions[s]) by {
            if s < last {
                assert(records[s] == before[s]);
            }
        }
    }
}

/// Every session is told once, in order: with the last entry of its id where it is the first session
/// of that id, and by itself otherwise. Every entry that is the last of its id and that no session
/// has is told after them, in order; and nothing else is told.
pub proof fn each_transaction_is_told_once(sessions: Seq<SessionView>, entries: Seq<EntryView>)
    ensures
        ({
            let records = all_records(sessions, entries);
            let n = sessions.len() as int;
            let left = untaken(sessions, n, entries);
            &&& records.len() == n + left.len()
            &&& forall|s: int, i: int|
                0 <= s < n && #[trigger] is_pair(sessions, entries, s, i) ==> is_both(
                    records[s],
                    sessions[s],
                    entries[i],
                )
            &&& forall|s: int|
                0 <= s < n && (forall|i: int| !#[trigger] is_pair(sessions, entries, s, i))
                    ==> is_of_session(#[trigger] records[s], sessions[s])
            &&& forall|j: int|
                0 <= j < left.len() ==> is_of_entry(records[n + j], #[trigger] left[j])
        }),
{
    let n = sessions.len() as int;
    lemma_join(sessions, entries, n);
    assert(sessions.take(n) =~= sessions);
    let (records, left) = join_all(sessions, latest(entries));
    let all = all_records(sessions, entries);
    assert forall|s: int| 0 <= s < n implies #[trigger] all[s] == records[s] by {}
    assert forall|j: int| 0 <= j < left.len() implies is_of_entry(
        all[n + j],
        #[trigger] left[j],
    ) by {
        assert(all[n + j] == crate::history::store_only(left[j]));
    }
}

// ---------------------------------------------------------------------------------------------
// Order

/// What a record is ordered by: when it started, and before everything where that is not known.
pub open spec fn time_of(record: RecordView) -> i64 {
    if record.started is Some {
        record.started->0
    } else {
        i64::MIN
    }
}

proof fn lemma_insert(s: Seq<RecordView>, r: RecordView, time: i64)
    requires
        forall|i: int, j: int|
            0 <= i < j < s.len() ==> time_of(#[trigger] s[i]) <= time_of(#[trigger] s[j]),
    ensures
        ({
            let after = insert_by_key(s, r);
            let at = |x: RecordView| time_of(x) == time;
            &&& after.len() == s.len() + 1
            &&& forall|i: int, j: int|
                0 <= i < j < after.len() ==> time_of(#[trigger] after[i]) <= time_of(
                    #[trigger] after[j],
                )
            &&& forall|i: int|
                0 <= i < after.len() ==> #[trigger] after[i] == r || s.contains(after[i])
            &&& after.filter(at) == s.push(r).filter(at)
        }),
    decreases s.len(),
{
    let after = insert_by_key(s, r);
    let at = |x: RecordView| time_of(x) == time;
    if s.len() == 0 || s.last().key() <= r.key() {
        assert(forall|i: int| 0 <= i < s.len() ==> time_of(#[trigger] s[i]) <= time_of(r)) by {
            assert forall|i: int| 0 <= i < s.len() implies time_of(#[trigger] s[i]) <= time_of(
                r,
            ) by {
                assert(s[s.len() - 1] == s.last());
            }
        }
        assert forall|i: int| 0 <= i < after.len() implies #[trigger] after[i] == r || s.contains(
            after[i],
        ) by {
            if i < s.len() {
                assert(s[i] == after[i]);
            }
        }
    } else {
        let fewer = s.drop_last();
        let last = s.last();
        assert(s[s.len() - 1] == last);
        assert(fewer.push(last) =~= s);
        lemma_insert(fewer, r, time);
        let inner = insert_by_key(fewer, r);
        assert(after == inner.push(last));
        assert forall|i: int| 0 <= i < inner.len() implies time_of(#[trigger] inner[i]) <= time_of(
            last,
        ) && (inner[i] == r || s.contains(inner[i])) by {
            if inner[i] != r {
                let k = choose|k: int| 0 <= k < fewer.len() && fewer[k] == inner[i];
                assert(s[k] == fewer[k]);
            }
        }
        assert(s.contains(last));
        assert forall|i: int| 0 <= i < after.len() implies #[trigger] after[i] == r || s.contains(
            after[i],
        ) by {
            if i < inner.len() {
                assert(after[i] == inner[i]);
            }
        }
        assert forall|i: int, j: int| 0 <= i < j < after.len() implies time_of(#[trigger] after[i])
            <= time_of(#[trigger] after[j]) by {
            assert(after[i] == inner[i]);
            if j < inner.len() {
                assert(after[j] == inner[j]);
            }
        }
        lemma_filter_push(inner, last, at);
        lemma_filter_push(fewer, last, at);
        lemma_filter_push(fewer, r, at);
        lemma_filter_push(s, r, at);
        assert(!(at(r) && at(last)));
    }
}

/// A list in the order of time holds what it is made of, each as often, and those of one time in the
/// order they came in.
pub proof fn an_order_of_time_is_stable(s: Seq<RecordView>, time: i64)
    ensures
        by_time(s).len() == s.len(),
        forall|i: int, j: int|
            0 <= i < j < by_time(s).len() ==> time_of(#[trigger] by_time(s)[i]) <= time_of(
                #[trigger] by_time(s)[j],
            ),
        by_time(s).filter(|x: RecordView| time_of(x) == time) == s.filter(
            |x: RecordView| time_of(x) == time,
        ),
    decreases s.len(),
{
    if s.len() > 0 {
        let fewer = s.drop_last();
        an_order_of_time_is_stable(fewer, time);
        lemma_insert(by_time(fewer), s.last(), time);
        let at = |x: RecordView| time_of(x) == time;
        lemma_filter_push(by_time(fewer), s.last(), at);
        lemma_filter_push(fewer, s.last(), at);
        assert(fewer.push(s.last()) =~= s);
    }
}

/// The package that an action is about.
pub open spec fn package_of(action: ActionView) -> Seq<char> {
    match action {
        ActionView::Installed { name, version: _ } => name,
        ActionView::Reinstalled { name, version: _ } => name,
        ActionView::Removed { name, version: _ } => name,
        ActionView::Upgraded { name, from: _, to: _ } => name,
        ActionView::Downgraded { name, from: _, to: _ } => name,
    }
}

/// Whether a query is about a record: it names no package or one that the record's actions are
/// about, and the record started in its span, or at a time that is not known.
pub open spec fn is_about(query: Query, record: RecordView) -> bool {
    &&& query.packages@.len() == 0 || exists|i: int, k: int|
        0 <= i < record.actions.len() && 0 <= k < query.packages@.len() && package_of(
            #[trigger] record.actions[i],
        ) == (#[trigger] query.packages@[k])@
    &&& query.since is Some && record.started is Some ==> query.since->0 <= record.started->0
    &&& query.until is Some && record.started is Some ==> record.started->0 <= query.until->0
}

proof fn lemma_wants(query: Query, record: RecordView)
    ensures
        query.wants(record) == is_about(query, record),
{
    let names = crate::text::texts(query.packages@);
    assert forall|i: int| 0 <= i < record.actions.len() implies package_of(
        #[trigger] record.actions[i],
    ) == record.actions[i].name() by {}
    if names.len() > 0 {
        if exists|i: int|
            0 <= i < record.actions.len() && names.contains((#[trigger] record.actions[i]).name()) {
            let i = choose|i: int|
                0 <= i < record.actions.len() && names.contains(
                    (#[trigger] record.actions[i]).name(),
                );
            let k = choose|k: int| 0 <= k < names.len() && names[k] == record.actions[i].name();
            assert(query.packages@[k]@ == names[k]);
            assert(package_of(record.actions[i]) == query.packages@[k]@);
        }
        if exists|i: int, k: int|
            0 <= i < record.actions.len() && 0 <= k < query.packages@.len() && package_of(
                #[trigger] record.actions[i],
            ) == (#[trigger] query.packages@[k])@ {
            let (i, k) = choose|i: int, k: int|
                0 <= i < record.actions.len() && 0 <= k < query.packages@.len() && package_of(
                    #[trigger] record.actions[i],
                ) == (#[trigger] query.packages@[k])@;
            assert(names[k] == record.actions[i].name());
            assert(names.contains(record.actions[i].name()));
        }
    }
}

/// A history is the newest of what the query is about: as many as it asks for, where there are as
/// many, from the end of all records in the order of time.
pub proof fn a_history_is_the_newest_that_was_asked_for(
    sessions: Seq<SessionView>,
    entries: Seq<EntryView>,
    query: Query,
)
    ensures
        ({
            let all = by_time(all_records(sessions, entries)).filter(
                |r: RecordView| is_about(query, r),
            );
            let told = history_of(sessions, entries, query);
            &&& told.len() == match query.last {
                Some(n) => if n < all.len() {
                    n as nat
                } else {
                    all.len()
                },
                None => all.len(),
            }
            &&& forall|i: int|
                0 <= i < told.len() ==> #[trigger] told[i] == all[all.len() - told.len() + i]
            &&& forall|i: int| 0 <= i < told.len() ==> is_about(query, #[trigger] told[i])
        }),
{
    let records = by_time(all_records(sessions, entries));
    let p = |r: RecordView| is_about(query, r);
    let q = |r: RecordView| query.wants(r);
    assert(p =~= q) by {
        assert forall|r: RecordView| #[trigger] p(r) == q(r) by {
            lemma_wants(query, r);
        }
    }
    let all = records.filter(p);
    let told = history_of(sessions, entries, query);
    assert forall|i: int| 0 <= i < told.len() implies is_about(query, #[trigger] told[i]) by {
        let k = all.len() - told.len() + i;
        assert(told[i] == all[k]);
        assert(all.contains(all[k]));
        lemma_filter_holds(records, p, all[k]);
    }
}

} // verus!
