//! What an installation lays down and records.

use vstd::prelude::*;

use crate::extract::archive::MemberKind;
use crate::extract::backup::{resolution, BackupOutcomeView, Hashed};
use crate::extract::decision::{EntryKind, Existing, SkipReason};
use crate::install::{
    after_backups, after_hashes, is_claimed, laid_down, metadata_of, recorded, walked, Answers,
    Compared, Filters, Laid, OutcomeView, PendingBackupView, Progress, Visit,
};
use crate::laws::lists::picks;
use crate::paths;
use crate::text;

verus! {

// ---------------------------------------------------------------------------------------------
// The walk

/// Whether visit `i` is to a member that belongs on the disk.
pub open spec fn is_payload(visits: Seq<Visit>, i: int) -> bool {
    visits[i].member.kind != MemberKind::Metadata
}

/// The path of visit `i`.
pub open spec fn path_at(visits: Seq<Visit>, i: int) -> Seq<char> {
    visits[i].member.path@
}

/// Whether visit `i` is to a path that is kept out.
pub open spec fn kept_out(visits: Seq<Visit>, filters: Filters, i: int) -> bool {
    filters.no_extract@.contains(path_at(visits, i))
}

/// Whether visit `i` puts a file where a file is.
pub open spec fn meets_a_file(visits: Seq<Visit>, i: int) -> bool {
    visits[i].existing == Existing::Other && visits[i].member.entry == EntryKind::Other
}

/// Whether visit `i` puts a file where a directory is.
pub open spec fn is_blocked(visits: Seq<Visit>, filters: Filters, i: int) -> bool {
    &&& is_payload(visits, i)
    &&& !kept_out(visits, filters, i)
    &&& visits[i].existing == Existing::Directory
    &&& visits[i].member.entry == EntryKind::Other
}

/// Whether visit `i` is to a file that is never replaced.
pub open spec fn is_protected(visits: Seq<Visit>, filters: Filters, i: int) -> bool {
    &&& is_payload(visits, i)
    &&& !kept_out(visits, filters, i)
    &&& meets_a_file(visits, i)
    &&& filters.no_upgrade@.contains(path_at(visits, i))
}

/// Whether visit `i` is to a configuration file that is there: one that the new package backs up, or
/// one that the old package did.
pub open spec fn is_contested(visits: Seq<Visit>, filters: Filters, i: int) -> bool {
    &&& is_payload(visits, i)
    &&& !kept_out(visits, filters, i)
    &&& meets_a_file(visits, i)
    &&& !filters.no_upgrade@.contains(path_at(visits, i))
    &&& filters.is_backup@.contains(path_at(visits, i)) || filters.old_backup_hash.spec_get(
        path_at(visits, i),
    ) is Some
}

/// Whether visit `i` is to a directory that is there.
pub open spec fn is_there(visits: Seq<Visit>, filters: Filters, i: int) -> bool {
    &&& is_payload(visits, i)
    &&& !kept_out(visits, filters, i)
    &&& visits[i].existing == Existing::Directory
    &&& visits[i].member.entry == EntryKind::Directory
}

/// Whether visit `i` puts the member in its own place.
pub open spec fn is_written(visits: Seq<Visit>, filters: Filters, i: int) -> bool {
    &&& is_payload(visits, i)
    &&& !kept_out(visits, filters, i)
    &&& !is_blocked(visits, filters, i)
    &&& !is_protected(visits, filters, i)
    &&& !is_contested(visits, filters, i)
    &&& !is_there(visits, filters, i)
}

/// What is said of visit `i` after the walk.
pub open spec fn fate(visits: Seq<Visit>, filters: Filters, i: int) -> (Seq<char>, OutcomeView) {
    let path = path_at(visits, i);
    if kept_out(visits, filters, i) {
        (path, OutcomeView::Skipped(SkipReason::NoExtract))
    } else if is_there(visits, filters, i) {
        (path, OutcomeView::Skipped(SkipReason::DirectoryExists))
    } else if is_written(visits, filters, i) {
        (path, OutcomeView::Written)
    } else {
        (path, OutcomeView::Backup(BackupOutcomeView::KeptBoth { pacnew: path + ".pacnew"@ }))
    }
}

/// Whether visit `i` is the first to a path that is on the disk afterwards, however it is spelled.
pub open spec fn claims(visits: Seq<Visit>, filters: Filters, i: int) -> bool {
    &&& is_payload(visits, i)
    &&& !kept_out(visits, filters, i)
    &&& forall|k: int|
        0 <= k < i && is_payload(visits, k) && !kept_out(visits, filters, k) ==> paths::key_of(
            #[trigger] path_at(visits, k),
        ) != paths::key_of(path_at(visits, i))
}

/// Whether visit `i` is to a backup file whose shipped contents are recorded without a comparison.
pub open spec fn is_baseline(visits: Seq<Visit>, filters: Filters, i: int) -> bool {
    &&& is_written(visits, filters, i) || is_protected(visits, filters, i)
    &&& filters.is_backup@.contains(path_at(visits, i))
}

/// Where the shipped contents of visit `i` lie.
pub open spec fn lies_at(visits: Seq<Visit>, filters: Filters, i: int) -> Seq<char> {
    if is_protected(visits, filters, i) {
        path_at(visits, i) + ".pacnew"@
    } else {
        path_at(visits, i)
    }
}

/// What is left to compare of visit `i`.
pub open spec fn to_compare(visits: Seq<Visit>, filters: Filters, i: int) -> PendingBackupView {
    PendingBackupView {
        slot: payloads(visits, i).len() as int,
        path: path_at(visits, i),
        old_hash: match filters.old_backup_hash.spec_get(path_at(visits, i)) {
            Some(hash) => Some(hash@),
            None => None,
        },
        is_new: visits[i].pacnew_is_new,
    }
}

/// The visits below `n` to members that belong on the disk.
pub open spec fn payloads(visits: Seq<Visit>, n: int) -> Seq<int> {
    picks(n, |i: int| is_payload(visits, i), |i: int| i)
}

/// Whether the walk over the first `n` members came to what they say.
pub open spec fn is_walk(visits: Seq<Visit>, filters: Filters, n: int, walk: Progress) -> bool {
    &&& walk.outcomes == picks(
        n,
        |i: int| is_payload(visits, i),
        |i: int| fate(visits, filters, i),
    )
    &&& walk.owned == picks(
        n,
        |i: int| claims(visits, filters, i),
        |i: int| path_at(visits, i),
    )
    &&& walk.backups == picks(
        n,
        |i: int| is_contested(visits, filters, i),
        |i: int| to_compare(visits, filters, i),
    )
    &&& walk.hashes == picks(
        n,
        |i: int| is_baseline(visits, filters, i),
        |i: int| (path_at(visits, i), lies_at(visits, filters, i)),
    )
}

proof fn lemma_outcomes_len(visits: Seq<Visit>, filters: Filters, n: int)
    ensures
        picks(n, |i: int| is_payload(visits, i), |i: int| fate(visits, filters, i)).len()
            == payloads(visits, n).len(),
    decreases n,
{
    if n > 0 {
        lemma_outcomes_len(visits, filters, n - 1);
    }
}

proof fn lemma_claimed(visits: Seq<Visit>, filters: Filters, n: int, path: Seq<char>)
    requires
        0 <= n <= visits.len(),
    ensures
        ({
            let owned = picks(
                n,
                |i: int| claims(visits, filters, i),
                |i: int| path_at(visits, i),
            );
            is_claimed(owned, path) <==> exists|k: int|
                0 <= k < n && is_payload(visits, k) && !kept_out(visits, filters, k)
                    && paths::key_of(#[trigger] path_at(visits, k)) == paths::key_of(path)
        }),
    decreases n,
{
    let p = |i: int| claims(visits, filters, i);
    let f = |i: int| path_at(visits, i);
    let owned = picks(n, p, f);
    if n > 0 {
        let last = n - 1;
        let before = picks(last, p, f);
        lemma_claimed(visits, filters, last, path);
        lemma_claimed(visits, filters, last, path_at(visits, last));
        if is_claimed(before, path) {
            let i = choose|i: int|
                0 <= i < before.len() && paths::key_of(#[trigger] before[i]) == paths::key_of(path);
            assert(owned[i] == before[i]);
            assert(is_claimed(owned, path));
        }
        if claims(visits, filters, last) {
            assert(owned == before.push(path_at(visits, last)));
            assert(owned[before.len() as int] == path_at(visits, last));
            if is_claimed(owned, path) && !is_claimed(before, path) {
                let i = choose|i: int|
                    0 <= i < owned.len() && paths::key_of(#[trigger] owned[i]) == paths::key_of(
                        path,
                    );
                if i < before.len() {
                    assert(before[i] == owned[i]);
                }
                assert(paths::key_of(path_at(visits, last)) == paths::key_of(path));
            }
        } else {
            assert(owned == before);
            if is_payload(visits, last) && !kept_out(visits, filters, last) && paths::key_of(
                path_at(visits, last),
            ) == paths::key_of(path) {
                let k = choose|k: int|
                    0 <= k < last && is_payload(visits, k) && !kept_out(visits, filters, k)
                        && paths::key_of(#[trigger] path_at(visits, k)) == paths::key_of(
                        path_at(visits, last),
                    );
                assert(paths::key_of(path_at(visits, k)) == paths::key_of(path));
                assert(is_claimed(before, path));
            }
        }
    }
}

proof fn lemma_walk(visits: Seq<Visit>, filters: Filters, n: int)
    requires
        0 <= n <= visits.len(),
    ensures
        match walked(visits.take(n), filters) {
            Ok(walk) => is_walk(visits, filters, n, walk) && forall|i: int|
                0 <= i < n ==> !#[trigger] is_blocked(visits, filters, i),
            Err(path) => exists|i: int|
                0 <= i < n && #[trigger] is_blocked(visits, filters, i) && path == path_at(
                    visits,
                    i,
                ) && forall|k: int| 0 <= k < i ==> !#[trigger] is_blocked(visits, filters, k),
        },
    decreases n,
{
    if n > 0 {
        let last = n - 1;
        lemma_walk(visits, filters, last);
        assert(visits.take(n).drop_last() =~= visits.take(last));
        assert(visits.take(n).last() == visits[last]);
        match walked(visits.take(last), filters) {
            Ok(before) => {
                if is_payload(visits, last) {
                    lemma_outcomes_len(visits, filters, last);
                    lemma_claimed(visits, filters, last, path_at(visits, last));
                    assert(is_claimed(before.owned, path_at(visits, last)) || claims(
                        visits,
                        filters,
                        last,
                    ) || kept_out(visits, filters, last));
                    if is_claimed(before.owned, path_at(visits, last)) {
                        let k = choose|k: int|
                            0 <= k < last && is_payload(visits, k) && !kept_out(visits, filters, k)
                                && paths::key_of(#[trigger] path_at(visits, k)) == paths::key_of(
                                path_at(visits, last),
                            );
                        assert(!claims(visits, filters, last));
                    }
                    if is_blocked(visits, filters, last) {
                        assert(walked(visits.take(n), filters) is Err);
                    }
                } else {
                    assert(!is_blocked(visits, filters, last));
                }
            },
            Err(path) => {
                let i = choose|i: int|
                    0 <= i < last && #[trigger] is_blocked(visits, filters, i) && path == path_at(
                        visits,
                        i,
                    ) && forall|k: int| 0 <= k < i ==> !#[trigger] is_blocked(visits, filters, k);
                assert(is_blocked(visits, filters, i));
            },
        }
    } else {
        assert(visits.take(0) =~= Seq::<Visit>::empty());
        let walk = walked(visits.take(0), filters)->Ok_0;
        assert(walk.outcomes =~= Seq::empty());
    }
}

/// A walk says of every member that belongs on the disk, in order, what became of it. The package
/// owns the first of each path that is there afterwards. The configuration files it meets are left
/// to be compared, each with its own old hash, and the shipped contents of every other backup file
/// are left to be recorded, from where they lie. A walk fails at the first file that a directory
/// stands in the way of, and nowhere else.
pub proof fn a_walk_says_what_became_of_each_member(visits: Seq<Visit>, filters: Filters)
    ensures
        match walked(visits, filters) {
            Ok(walk) => is_walk(visits, filters, visits.len() as int, walk) && forall|i: int|
                0 <= i < visits.len() ==> !#[trigger] is_blocked(visits, filters, i),
            Err(path) => exists|i: int|
                0 <= i < visits.len() && #[trigger] is_blocked(visits, filters, i) && path
                    == path_at(visits, i) && forall|k: int|
                    0 <= k < i ==> !#[trigger] is_blocked(visits, filters, k),
        },
{
    lemma_walk(visits, filters, visits.len() as int);
    assert(visits.take(visits.len() as int) =~= visits);
}

/// Whether visit `i` is to metadata of a name that could be read whole.
pub open spec fn tells(visits: Seq<Visit>, name: Seq<char>, i: int) -> bool {
    &&& visits[i].member.kind == MemberKind::Metadata
    &&& path_at(visits, i) == name
    &&& visits[i].contents is Some
    &&& visits[i].contents->0@.len() <= 67_108_864
}

/// The metadata of a name is what the last member of that name holds that could be read whole.
pub proof fn the_last_metadata_of_a_name_counts(visits: Seq<Visit>, name: Seq<char>)
    ensures
        forall|i: int|
            0 <= i < visits.len() && #[trigger] tells(visits, name, i) && (forall|k: int|
                i < k < visits.len() ==> !#[trigger] tells(visits, name, k)) ==> metadata_of(
                visits,
                name,
            ) == visits[i].contents,
        metadata_of(visits, name) is Some ==> exists|i: int|
            0 <= i < visits.len() && #[trigger] tells(visits, name, i),
    decreases visits.len(),
{
    if visits.len() > 0 {
        let fewer = visits.drop_last();
        let last = visits.len() - 1;
        the_last_metadata_of_a_name_counts(fewer, name);
        assert forall|i: int| 0 <= i < last implies #[trigger] tells(fewer, name, i) == tells(
            visits,
            name,
            i,
        ) by {
            assert(fewer[i] == visits[i]);
        }
        assert(tells(visits, name, last) ==> metadata_of(visits, name) == visits[last].contents);
        if !tells(visits, name, last) {
            assert(metadata_of(visits, name) == metadata_of(fewer, name));
            assert forall|i: int|
                0 <= i < visits.len() && #[trigger] tells(visits, name, i) && (forall|k: int|
                    i < k < visits.len() ==> !#[trigger] tells(visits, name, k)) implies metadata_of(
                visits,
                name,
            ) == visits[i].contents by {
                assert(tells(fewer, name, i));
                assert forall|k: int| i < k < fewer.len() implies !#[trigger] tells(
                    fewer,
                    name,
                    k,
                ) by {
                    assert(!tells(visits, name, k));
                }
            }
            if metadata_of(visits, name) is Some {
                let i = choose|i: int| 0 <= i < fewer.len() && #[trigger] tells(fewer, name, i);
                assert(tells(visits, name, i));
            }
        }
    }
}

// ---------------------------------------------------------------------------------------------
// Backup files

/// Whether hashing gave this hash.
pub open spec fn is_known(hashed: Hashed, hash: Seq<char>) -> bool {
    hashed matches Hashed::Known(known) && known@ == hash
}

/// A configuration file becomes the new one where it is the new one already or where nobody touched
/// it, stays where the package did not change it, and otherwise stays beside the new one. What the
/// package shipped is recorded where it could be hashed.
pub proof fn a_backup_file_is_compared_three_ways(
    path: Seq<char>,
    local: Hashed,
    packaged: Hashed,
    original: Option<Seq<char>>,
    pacnew_is_new: bool,
    hash: Seq<char>,
)
    ensures
        ({
            let r = resolution(path, local, packaged, original, pacnew_is_new);
            &&& is_known(packaged, hash) && is_known(local, hash) ==> r.outcome
                == BackupOutcomeView::InstalledNew
            &&& is_known(packaged, hash) && !is_known(local, hash) && original == Some(hash)
                ==> r.outcome == (BackupOutcomeView::KeptExisting { pacnew_removed: pacnew_is_new })
            &&& is_known(local, hash) && !is_known(packaged, hash) && original == Some(hash)
                ==> r.outcome == BackupOutcomeView::InstalledNew
            &&& r.outcome is InstalledNew ==> local is Known && exists|h: Seq<char>|
                is_known(local, h) && (is_known(packaged, h) || original == Some(h))
            &&& r.outcome is KeptExisting ==> original is Some && is_known(packaged, original->0)
            &&& r.outcome is KeptBoth ==> r.outcome == (BackupOutcomeView::KeptBoth {
                pacnew: path + ".pacnew"@,
            })
            &&& r.recorded_hash == Some(hash) <==> is_known(packaged, hash)
            &&& r.unreadable <==> local is Unreadable || packaged is Unreadable
        }),
{
    if let Hashed::Known(known) = local {
        assert(is_known(local, known@));
        if let Hashed::Known(other) = packaged {
            assert(is_known(packaged, other@));
        }
    }
}

/// Whether hashes are in the order of their paths, each path once.
pub open spec fn is_sorted(hashes: Seq<(Seq<char>, Seq<char>)>) -> bool {
    forall|i: int, j: int|
        0 <= i < j < hashes.len() ==> text::text_lt(
            paths::key_of((#[trigger] hashes[i]).0),
            paths::key_of((#[trigger] hashes[j]).0),
        )
}

/// Whether a path has a hash, however it is spelled.
pub open spec fn has_hash(
    hashes: Seq<(Seq<char>, Seq<char>)>,
    path: Seq<char>,
    hash: Seq<char>,
) -> bool {
    exists|i: int|
        0 <= i < hashes.len() && paths::key_of((#[trigger] hashes[i]).0) == paths::key_of(path)
            && hashes[i].1 == hash
}

/// Recording a hash gives its path that hash and no other, leaves every other path the hash that it
/// has, and keeps the order.
pub proof fn a_recorded_hash_is_that_of_its_path(
    hashes: Seq<(Seq<char>, Seq<char>)>,
    path: Seq<char>,
    hash: Seq<char>,
    other: Seq<char>,
    value: Seq<char>,
)
    requires
        is_sorted(hashes),
    ensures
        is_sorted(recorded(hashes, path, hash)),
        has_hash(recorded(hashes, path, hash), other, value) <==> if paths::key_of(other)
            == paths::key_of(path) {
            value == hash
        } else {
            has_hash(hashes, other, value)
        },
        forall|i: int|
            0 <= i < recorded(hashes, path, hash).len() ==> {
                let name = (#[trigger] recorded(hashes, path, hash)[i]).0;
                name == path || exists|k: int| 0 <= k < hashes.len() && name == (
                #[trigger] hashes[k]).0
            },
    decreases hashes.len(),
{
    let after = recorded(hashes, path, hash);
    let key = paths::key_of(path);
    if hashes.len() == 0 {
        assert(after[0] == (path, hash));
        assert(paths::key_of(after[0].0) == key);
    } else {
        let last = hashes.last();
        let fewer = hashes.drop_last();
        let n = hashes.len() - 1;
        assert(hashes[n] == last);
        assert(is_sorted(fewer)) by {
            assert forall|i: int, j: int| 0 <= i < j < fewer.len() implies text::text_lt(
                paths::key_of((#[trigger] fewer[i]).0),
                paths::key_of((#[trigger] fewer[j]).0),
            ) by {
                assert(fewer[i] == hashes[i] && fewer[j] == hashes[j]);
            }
        }
        let last_key = paths::key_of(last.0);
        assert forall|i: int| 0 <= i < n implies text::text_lt(
            paths::key_of((#[trigger] fewer[i]).0),
            last_key,
        ) by {
            assert(fewer[i] == hashes[i]);
        }
        lemma_has_push(fewer, last, other, value);
        assert(fewer.push(last) =~= hashes);
        text::lemma_text_lt_total(last_key, key);
        if last_key == key {
            lemma_has_push(fewer, (last.0, hash), other, value);
            assert(after[n] == (last.0, hash));
            if has_hash(fewer, other, value) && paths::key_of(other) == key {
                let i = choose|i: int|
                    0 <= i < fewer.len() && paths::key_of((#[trigger] fewer[i]).0)
                        == paths::key_of(other) && fewer[i].1 == value;
                text::lemma_text_lt_total(key, key);
                assert(false);
            }
            assert(after[n].0 == hashes[n].0);
            assert forall|i: int| 0 <= i < n implies after[i] == hashes[i] by {}
        } else if text::text_lt(last_key, key) {
            lemma_has_push(hashes, (path, hash), other, value);
            if has_hash(hashes, other, value) && paths::key_of(other) == key {
                let i = choose|i: int|
                    0 <= i < hashes.len() && paths::key_of((#[trigger] hashes[i]).0)
                        == paths::key_of(other) && hashes[i].1 == value;
                if i < n {
                    assert(hashes[i] == fewer[i]);
                    text::lemma_text_lt_transitive(key, last_key, key);
                }
                text::lemma_text_lt_total(key, key);
                assert(false);
            }
            assert forall|i: int, j: int| 0 <= i < j < after.len() implies text::text_lt(
                paths::key_of((#[trigger] after[i]).0),
                paths::key_of((#[trigger] after[j]).0),
            ) by {
                if j == hashes.len() && i < n {
                    assert(after[i] == fewer[i]);
                    text::lemma_text_lt_transitive(
                        paths::key_of(after[i].0),
                        last_key,
                        key,
                    );
                }
            }
        } else {
            a_recorded_hash_is_that_of_its_path(fewer, path, hash, other, value);
            let inner = recorded(fewer, path, hash);
            lemma_has_push(inner, last, other, value);
            assert forall|i: int| 0 <= i < inner.len() implies text::text_lt(
                paths::key_of((#[trigger] inner[i]).0),
                last_key,
            ) by {
                if inner[i].0 != path {
                    let k = choose|k: int| 0 <= k < fewer.len() && inner[i].0 == (
                    #[trigger] fewer[k]).0;
                    assert(text::text_lt(paths::key_of(fewer[k].0), last_key));
                }
            }
            assert forall|i: int| 0 <= i < after.len() implies ({
                let name = (#[trigger] after[i]).0;
                name == path || exists|k: int| 0 <= k < hashes.len() && name == (
                #[trigger] hashes[k]).0
            }) by {
                if i < inner.len() {
                    assert(after[i] == inner[i]);
                    if inner[i].0 != path {
                        let k = choose|k: int| 0 <= k < fewer.len() && inner[i].0 == (
                        #[trigger] fewer[k]).0;
                        assert(hashes[k].0 == after[i].0);
                    }
                } else {
                    assert(after[i].0 == hashes[n].0);
                }
            }
        }
    }
}

proof fn lemma_has_push(
    hashes: Seq<(Seq<char>, Seq<char>)>,
    last: (Seq<char>, Seq<char>),
    path: Seq<char>,
    hash: Seq<char>,
)
    ensures
        has_hash(hashes.push(last), path, hash) <==> has_hash(hashes, path, hash) || (
        paths::key_of(last.0) == paths::key_of(path) && last.1 == hash),
{
    let more = hashes.push(last);
    if has_hash(hashes, path, hash) {
        let i = choose|i: int|
            0 <= i < hashes.len() && paths::key_of((#[trigger] hashes[i]).0) == paths::key_of(path)
                && hashes[i].1 == hash;
        assert(more[i] == hashes[i]);
    }
    assert(more[hashes.len() as int] == last);
    if has_hash(more, path, hash) {
        let i = choose|i: int|
            0 <= i < more.len() && paths::key_of((#[trigger] more[i]).0) == paths::key_of(path)
                && more[i].1 == hash;
        if i < hashes.len() {
            assert(hashes[i] == more[i]);
        }
    }
}

/// What hashing backup file `k` and its `.pacnew` gave.
pub open spec fn answer(answers: Seq<Compared>, k: int) -> Compared {
    if k < answers.len() {
        answers[k]
    } else {
        Compared { local: Hashed::Missing, packaged: Hashed::Missing }
    }
}

/// Whether each backup file has a place of its own among the outcomes.
pub open spec fn has_places(backups: Seq<PendingBackupView>, outcomes: int) -> bool {
    &&& forall|k: int| 0 <= k < backups.len() ==> 0 <= (#[trigger] backups[k]).slot < outcomes
    &&& forall|j: int, k: int|
        0 <= j < k < backups.len() ==> (#[trigger] backups[j]).slot < (#[trigger] backups[k]).slot
}

/// How backup file `k` is resolved, by its own comparison.
pub open spec fn verdict(
    backups: Seq<PendingBackupView>,
    answers: Seq<Compared>,
    k: int,
) -> BackupOutcomeView {
    resolution(
        backups[k].path,
        answer(answers, k).local,
        answer(answers, k).packaged,
        backups[k].old_hash,
        backups[k].is_new,
    ).outcome
}

/// Once the comparisons are in, each backup file has the outcome of its own, every other outcome
/// stays as it is, and a file that could not be read is reported, in order.
pub proof fn a_comparison_decides_its_own_outcome(
    so_far: Laid,
    backups: Seq<PendingBackupView>,
    answers: Seq<Compared>,
)
    requires
        has_places(backups, so_far.outcomes.len() as int),
    ensures
        ({
            let after = after_backups(so_far, backups, answers);
            &&& after.outcomes.len() == so_far.outcomes.len()
            &&& forall|k: int|
                0 <= k < backups.len() ==> after.outcomes[(#[trigger] backups[k]).slot] == (
                    backups[k].path,
                    OutcomeView::Backup(verdict(backups, answers, k)),
                )
            &&& forall|s: int|
                0 <= s < so_far.outcomes.len() && (forall|k: int|
                    0 <= k < backups.len() ==> (#[trigger] backups[k]).slot != s)
                    ==> #[trigger] after.outcomes[s] == so_far.outcomes[s]
            &&& after.unreadable == so_far.unreadable + picks(
                backups.len() as int,
                |k: int|
                    answer(answers, k).local is Unreadable || answer(answers, k).packaged
                        is Unreadable,
                |k: int| backups[k].path,
            )
        }),
    decreases backups.len(),
{
    let p = |k: int|
        answer(answers, k).local is Unreadable || answer(answers, k).packaged is Unreadable;
    let f = |k: int| backups[k].path;
    let n = backups.len() as int;
    if n == 0 {
        assert(after_backups(so_far, backups, answers).unreadable =~= so_far.unreadable + picks(
            n,
            p,
            f,
        ));
    } else {
        let fewer = backups.drop_last();
        let last = backups.last();
        assert forall|k: int| 0 <= k < n - 1 implies fewer[k] == backups[k] by {}
        assert(backups[n - 1] == last);
        a_comparison_decides_its_own_outcome(so_far, fewer, answers);
        let g = |k: int| fewer[k].path;
        crate::laws::lists::lemma_picks_agree(n - 1, p, p, g, f);
        let before = after_backups(so_far, fewer, answers);
        let after = after_backups(so_far, backups, answers);
        assert(after.outcomes == before.outcomes.update(
            last.slot,
            (last.path, OutcomeView::Backup(verdict(backups, answers, n - 1))),
        ));
        assert forall|k: int| 0 <= k < n implies after.outcomes[(#[trigger] backups[k]).slot] == (
            backups[k].path,
            OutcomeView::Backup(verdict(backups, answers, k)),
        ) by {
            if k < n - 1 {
                assert(fewer[k] == backups[k]);
                assert(backups[k].slot < backups[n - 1].slot);
                assert(verdict(fewer, answers, k) == verdict(backups, answers, k));
            }
        }
        assert forall|s: int|
            0 <= s < so_far.outcomes.len() && (forall|k: int|
                0 <= k < n ==> (#[trigger] backups[k]).slot != s) implies #[trigger] after.outcomes[s]
            == so_far.outcomes[s] by {
            assert(backups[n - 1].slot != s);
            assert forall|k: int| 0 <= k < n - 1 implies (#[trigger] fewer[k]).slot != s by {
                assert(backups[k].slot != s);
            }
            assert(before.outcomes[s] == so_far.outcomes[s]);
        }
        assert(after.unreadable =~= so_far.unreadable + picks(n, p, f));
    }
}

/// What is left to compare after a walk has a place of its own among the outcomes, which is that of
/// its own member.
pub proof fn what_is_compared_has_its_own_outcome(visits: Seq<Visit>, filters: Filters, n: int)
    requires
        0 <= n <= visits.len(),
        walked(visits.take(n), filters) is Ok,
    ensures
        ({
            let walk = walked(visits.take(n), filters)->Ok_0;
            &&& has_places(walk.backups, walk.outcomes.len() as int)
            &&& forall|k: int|
                0 <= k < walk.backups.len() ==> walk.outcomes[(#[trigger] walk.backups[k]).slot].0
                    == walk.backups[k].path
        }),
    decreases n,
{
    lemma_walk(visits, filters, n);
    lemma_outcomes_len(visits, filters, n);
    let walk = walked(visits.take(n), filters)->Ok_0;
    if n > 0 {
        assert(visits.take(n).drop_last() =~= visits.take(n - 1));
        what_is_compared_has_its_own_outcome(visits, filters, n - 1);
        lemma_walk(visits, filters, n - 1);
        lemma_outcomes_len(visits, filters, n - 1);
        let before = walked(visits.take(n - 1), filters)->Ok_0;
        if is_contested(visits, filters, n - 1) {
            assert(walk.backups == before.backups.push(to_compare(visits, filters, n - 1)));
            assert(walk.outcomes == before.outcomes.push(fate(visits, filters, n - 1)));
        } else {
            assert(walk.backups == before.backups);
        }
        assert forall|k: int| 0 <= k < walk.backups.len() implies walk.outcomes[(
        #[trigger] walk.backups[k]).slot].0 == walk.backups[k].path by {
            if k < before.backups.len() {
                assert(walk.backups[k] == before.backups[k]);
            }
        }
    }
}

/// Hashing the other backup files changes no outcome, and reports those that could not be hashed, in
/// order.
pub proof fn hashing_changes_no_outcome(
    so_far: Laid,
    hashes: Seq<(Seq<char>, Seq<char>)>,
    answers: Seq<Hashed>,
)
    ensures
        ({
            let after = after_hashes(so_far, hashes, answers);
            &&& after.outcomes == so_far.outcomes
            &&& after.unreadable == so_far.unreadable + picks(
                hashes.len() as int,
                |k: int| !(k < answers.len() && answers[k] is Known),
                |k: int| hashes[k].0,
            )
        }),
    decreases hashes.len(),
{
    let p = |k: int| !(k < answers.len() && answers[k] is Known);
    let f = |k: int| hashes[k].0;
    let n = hashes.len() as int;
    if n > 0 {
        let fewer = hashes.drop_last();
        hashing_changes_no_outcome(so_far, fewer, answers);
        crate::laws::lists::lemma_picks_agree(n - 1, p, p, |k: int| fewer[k].0, f);
    }
    assert(after_hashes(so_far, hashes, answers).unreadable =~= so_far.unreadable + picks(n, p, f));
}

/// Whether hashing file `k` gave what the package shipped as a path.
pub open spec fn gives(
    hashes: Seq<(Seq<char>, Seq<char>)>,
    answers: Seq<Hashed>,
    path: Seq<char>,
    k: int,
) -> bool {
    &&& paths::key_of(hashes[k].0) == paths::key_of(path)
    &&& k < answers.len()
    &&& answers[k] is Known
}

/// Whether comparing file `k` gave what the package shipped as a path.
pub open spec fn shows(
    backups: Seq<PendingBackupView>,
    answers: Seq<Compared>,
    path: Seq<char>,
    k: int,
) -> bool {
    &&& paths::key_of(backups[k].path) == paths::key_of(path)
    &&& k < answers.len()
    &&& answers[k].packaged is Known
}

proof fn lemma_hashes_recorded(
    so_far: Laid,
    hashes: Seq<(Seq<char>, Seq<char>)>,
    answers: Seq<Hashed>,
    path: Seq<char>,
    value: Seq<char>,
)
    requires
        is_sorted(so_far.hashes),
    ensures
        is_sorted(after_hashes(so_far, hashes, answers).hashes),
        (forall|k: int| 0 <= k < hashes.len() ==> !#[trigger] gives(hashes, answers, path, k)) ==> (
        has_hash(after_hashes(so_far, hashes, answers).hashes, path, value) <==> has_hash(
            so_far.hashes,
            path,
            value,
        )),
        forall|k: int|
            0 <= k < hashes.len() && #[trigger] gives(hashes, answers, path, k) && (forall|j: int|
                k < j < hashes.len() ==> !#[trigger] gives(hashes, answers, path, j)) ==> (has_hash(
                after_hashes(so_far, hashes, answers).hashes,
                path,
                value,
            ) <==> is_known(answers[k], value)),
    decreases hashes.len(),
{
    if hashes.len() > 0 {
        let fewer = hashes.drop_last();
        let n = hashes.len() - 1;
        lemma_hashes_recorded(so_far, fewer, answers, path, value);
        let before = after_hashes(so_far, fewer, answers).hashes;
        assert(hashes[n] == hashes.last());
        if n < answers.len() {
            if let Hashed::Known(hash) = answers[n] {
                a_recorded_hash_is_that_of_its_path(before, hashes[n].0, hash@, path, value);
            }
        }
        assert forall|k: int| 0 <= k < n implies #[trigger] gives(fewer, answers, path, k) == gives(
            hashes,
            answers,
            path,
            k,
        ) by {
            assert(fewer[k] == hashes[k]);
        }
        let after = after_hashes(so_far, hashes, answers).hashes;
        if !gives(hashes, answers, path, n) {
            assert(has_hash(after, path, value) == has_hash(before, path, value));
            if forall|k: int| 0 <= k < hashes.len() ==> !#[trigger] gives(
                hashes,
                answers,
                path,
                k,
            ) {
                assert forall|k: int| 0 <= k < n implies !#[trigger] gives(
                    fewer,
                    answers,
                    path,
                    k,
                ) by {
                    assert(!gives(hashes, answers, path, k));
                }
            }
            assert forall|k: int|
                0 <= k < hashes.len() && #[trigger] gives(hashes, answers, path, k) && (forall|
                    j: int,
                |
                    k < j < hashes.len() ==> !#[trigger] gives(
                        hashes,
                        answers,
                        path,
                        j,
                    )) implies (has_hash(after, path, value) <==> is_known(answers[k], value)) by {
                assert(gives(fewer, answers, path, k));
                assert forall|j: int| k < j < n implies !#[trigger] gives(
                    fewer,
                    answers,
                    path,
                    j,
                ) by {
                    assert(!gives(hashes, answers, path, j));
                }
            }
        }
    }
}

proof fn lemma_backups_recorded(
    so_far: Laid,
    backups: Seq<PendingBackupView>,
    answers: Seq<Compared>,
    path: Seq<char>,
    value: Seq<char>,
)
    requires
        is_sorted(so_far.hashes),
    ensures
        is_sorted(after_backups(so_far, backups, answers).hashes),
        (forall|k: int| 0 <= k < backups.len() ==> !#[trigger] shows(backups, answers, path, k))
            ==> (has_hash(after_backups(so_far, backups, answers).hashes, path, value) <==> has_hash(
            so_far.hashes,
            path,
            value,
        )),
        forall|k: int|
            0 <= k < backups.len() && #[trigger] shows(backups, answers, path, k) && (forall|j: int|
                k < j < backups.len() ==> !#[trigger] shows(backups, answers, path, j)) ==> (has_hash(
                after_backups(so_far, backups, answers).hashes,
                path,
                value,
            ) <==> is_known(answers[k].packaged, value)),
    decreases backups.len(),
{
    if backups.len() > 0 {
        let fewer = backups.drop_last();
        let n = backups.len() - 1;
        lemma_backups_recorded(so_far, fewer, answers, path, value);
        let before = after_backups(so_far, fewer, answers).hashes;
        assert(backups[n] == backups.last());
        if n < answers.len() {
            if let Hashed::Known(hash) = answers[n].packaged {
                a_recorded_hash_is_that_of_its_path(before, backups[n].path, hash@, path, value);
            }
        }
        assert forall|k: int| 0 <= k < n implies #[trigger] shows(fewer, answers, path, k) == shows(
            backups,
            answers,
            path,
            k,
        ) by {
            assert(fewer[k] == backups[k]);
        }
        let after = after_backups(so_far, backups, answers).hashes;
        if !shows(backups, answers, path, n) {
            assert(has_hash(after, path, value) == has_hash(before, path, value));
            if forall|k: int| 0 <= k < backups.len() ==> !#[trigger] shows(
                backups,
                answers,
                path,
                k,
            ) {
                assert forall|k: int| 0 <= k < n implies !#[trigger] shows(
                    fewer,
                    answers,
                    path,
                    k,
                ) by {
                    assert(!shows(backups, answers, path, k));
                }
            }
            assert forall|k: int|
                0 <= k < backups.len() && #[trigger] shows(backups, answers, path, k) && (forall|
                    j: int,
                |
                    k < j < backups.len() ==> !#[trigger] shows(
                        backups,
                        answers,
                        path,
                        j,
                    )) implies (has_hash(after, path, value) <==> is_known(
                answers[k].packaged,
                value,
            )) by {
                assert(shows(fewer, answers, path, k));
                assert forall|j: int| k < j < n implies !#[trigger] shows(
                    fewer,
                    answers,
                    path,
                    j,
                ) by {
                    assert(!shows(backups, answers, path, j));
                }
            }
        }
    }
}

/// What an installation records of a path is the last that hashing what the package shipped there
/// gave, and nothing where that gave nothing. What is recorded is in the order of the paths.
pub proof fn what_was_shipped_is_recorded(
    walk: Progress,
    answers: Answers,
    path: Seq<char>,
    value: Seq<char>,
)
    ensures
        ({
            let laid = laid_down(walk, answers).hashes;
            let given = answers.hashes@;
            let shown = answers.backups@;
            &&& is_sorted(laid)
            &&& forall|k: int|
                0 <= k < walk.hashes.len() && #[trigger] gives(walk.hashes, given, path, k) && (
                forall|j: int|
                    k < j < walk.hashes.len() ==> !#[trigger] gives(walk.hashes, given, path, j))
                    ==> (has_hash(laid, path, value) <==> is_known(given[k], value))
            &&& (forall|k: int|
                0 <= k < walk.hashes.len() ==> !#[trigger] gives(walk.hashes, given, path, k)) ==> {
                &&& forall|k: int|
                    0 <= k < walk.backups.len() && #[trigger] shows(
                        walk.backups,
                        shown,
                        path,
                        k,
                    ) && (forall|j: int|
                        k < j < walk.backups.len() ==> !#[trigger] shows(
                            walk.backups,
                            shown,
                            path,
                            j,
                        )) ==> (has_hash(laid, path, value) <==> is_known(shown[k].packaged, value))
                &&& (forall|k: int|
                    0 <= k < walk.backups.len() ==> !#[trigger] shows(
                        walk.backups,
                        shown,
                        path,
                        k,
                    )) ==> !has_hash(laid, path, value)
            }
        }),
{
    let start = Laid {
        outcomes: walk.outcomes,
        hashes: Seq::empty(),
        unreadable: Seq::empty(),
    };
    lemma_backups_recorded(start, walk.backups, answers.backups@, path, value);
    lemma_hashes_recorded(
        after_backups(start, walk.backups, answers.backups@),
        walk.hashes,
        answers.hashes@,
        path,
        value,
    );
}

} // verus!
