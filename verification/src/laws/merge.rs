//! What waits to be merged, what it is merged from, and what an answer does.

use vstd::prelude::*;

use crate::laws::lists::lemma_push_holds;
use crate::laws::owner::within;
use crate::merge::action::{steps_of, Action, StepView};
use crate::merge::base::{
    best_in, best_of, candidate_of, first_wanted, is_wanted, looked_at, BaseCandidateView,
    CacheDirectory, CacheEntry, Content,
};
use crate::merge::scan::{
    a_number_reads_back, answer, collected, described, described_all, listing_of, numbered,
    numbers_in, over_backups, over_package, over_packages, placed, tested, Backup, Compared,
    Installed, Listing, Place, ScanLimits, ScanView, State,
};
use crate::merge::{PendingKind, PendingView, Verdict};
use crate::package::{file_name_of, ordered};
use crate::paths;
use crate::text;

verus! {

// ---------------------------------------------------------------------------------------------
// Pending files

/// What a copy of a kind is called: the name of its target, and a suffix.
pub open spec fn copy_name(name: Seq<char>, kind: PendingKind) -> Seq<char> {
    match kind {
        PendingKind::Pacnew => name + ".pacnew"@,
        PendingKind::Pacsave => name + ".pacsave"@,
        PendingKind::NumberedPacsave(n) => name + ".pacsave."@ + text::dec(n as nat),
    }
}

/// Whether listing `i` is the first of the directory that holds a target.
pub open spec fn is_listing(listings: Seq<Listing>, target: Seq<char>, i: int) -> bool {
    let key = paths::key_of(paths::spec_parent(target));
    &&& 0 <= i < listings.len()
    &&& paths::key_of(listings[i].parent@) == key
    &&& forall|k: int| 0 <= k < i ==> paths::key_of((#[trigger] listings[k]).parent@) != key
}

/// Whether a copy of a kind sits beside a target: one without a number where it was met, and one
/// with a number where the directory lists it.
pub open spec fn sits_beside(
    listings: Seq<Listing>,
    target: Seq<char>,
    place: Place,
    kind: PendingKind,
) -> bool {
    let copy = copy_name(place.name@, kind);
    match kind {
        PendingKind::NumberedPacsave(_) => exists|i: int| #[trigger]
            is_listing(listings, target, i) && listings[i].names is Ok
                && listings[i].names->Ok_0@.contains(copy),
        _ => text::texts(place.present@).contains(copy),
    }
}

/// Whether answer `k` is the first that comparing a copy gave.
pub open spec fn is_answer(place: Place, copy: Seq<char>, k: int) -> bool {
    &&& 0 <= k < place.compared@.len()
    &&& place.compared@[k].0@ == copy
    &&& forall|j: int| 0 <= j < k ==> (#[trigger] place.compared@[j]).0@ != copy
}

/// Whether a verdict is that on a copy: what comparing it with its target gave, and that the target
/// is missing where it is not there or where nothing was compared.
pub open spec fn is_verdict(place: Place, copy: Seq<char>, verdict: Verdict) -> bool {
    if !text::texts(place.present@).contains(place.name@) {
        verdict == Verdict::TargetMissing
    } else {
        &&& forall|k: int| #[trigger]
            is_answer(place, copy, k) ==> verdict == match place.compared@[k].1 {
                Compared::Same => Verdict::Identical,
                Compared::Different => Verdict::Differs,
                Compared::Missing => Verdict::TargetMissing,
                Compared::Failed(_) => Verdict::Unreadable,
            }
        &&& (forall|k: int| !#[trigger] is_answer(place, copy, k)) ==> verdict
            == Verdict::TargetMissing
    }
}

/// Whether a pending file is a copy that sits beside a backup file of a package.
pub open spec fn is_copy(
    listings: Seq<Listing>,
    package: Seq<char>,
    version: Seq<char>,
    target: Seq<char>,
    place: Place,
    pending: PendingView,
) -> bool {
    &&& pending.package == package
    &&& pending.installed_version == version
    &&& pending.target == target
    &&& pending.pacfile == copy_name(target, pending.kind)
    &&& sits_beside(listings, target, place, pending.kind)
    &&& is_verdict(place, copy_name(place.name@, pending.kind), pending.verdict)
}

/// Whether a pending file is a copy of backup file `b` of a list.
pub open spec fn is_copy_of(
    listings: Seq<Listing>,
    package: Seq<char>,
    version: Seq<char>,
    backups: Seq<Backup>,
    b: int,
    pending: PendingView,
) -> bool {
    backups[b].place is Ok && is_copy(
        listings,
        package,
        version,
        backups[b].path@,
        backups[b].place->Ok_0,
        pending,
    )
}

/// Whether a pending file is a copy of a backup file of package `p` of a list.
pub open spec fn is_copy_in(
    listings: Seq<Listing>,
    packages: Seq<Installed>,
    p: int,
    pending: PendingView,
) -> bool {
    packages[p].backups is Ok && exists|b: int|
        0 <= b < packages[p].backups->Ok_0@.len() && #[trigger] is_copy_of(
            listings,
            packages[p].name@,
            packages[p].version@,
            packages[p].backups->Ok_0@,
            b,
            pending,
        )
}

proof fn lemma_suffixes(name: Seq<char>, kind: PendingKind)
    ensures
        name + kind.spec_suffix() == copy_name(name, kind),
{
    reveal_strlit(".pacsave");
    reveal_strlit(".pacsave.");
    reveal_strlit(".");
    assert(".pacsave."@ =~= ".pacsave"@ + "."@);
    assert(name + kind.spec_suffix() =~= copy_name(name, kind));
}

proof fn lemma_answer(place: Place, copy: Seq<char>, i: int)
    requires
        0 <= i <= place.compared@.len(),
        forall|j: int| 0 <= j < i ==> (#[trigger] place.compared@[j]).0@ != copy,
    ensures
        forall|k: int| #[trigger]
            is_answer(place, copy, k) ==> answer(place.compared@, copy, i)
                == place.compared@[k].1,
        (forall|k: int| !#[trigger] is_answer(place, copy, k)) ==> answer(
            place.compared@,
            copy,
            i,
        ) == Compared::Missing,
        answer(place.compared@, copy, i) == Compared::Missing || exists|k: int| #[trigger]
            is_answer(place, copy, k),
    decreases place.compared@.len() - i,
{
    if i < place.compared@.len() {
        if place.compared@[i].0@ == copy {
            assert(is_answer(place, copy, i));
            assert forall|k: int| #[trigger] is_answer(place, copy, k) implies k == i by {
                if i < k {
                    assert(place.compared@[i].0@ != copy);
                }
            }
        } else {
            lemma_answer(place, copy, i + 1);
        }
    } else {
        assert forall|k: int| !#[trigger] is_answer(place, copy, k) by {}
    }
}

proof fn lemma_verdict(place: Place, copy: Seq<char>, verdict: Verdict)
    ensures
        is_verdict(place, copy, verdict) <==> verdict == crate::merge::scan::verdict_of(
            place,
            copy,
        ).0,
{
    lemma_answer(place, copy, 0);
    if exists|k: int| #[trigger] is_answer(place, copy, k) {
        let k = choose|k: int| #[trigger] is_answer(place, copy, k);
        assert(answer(place.compared@, copy, 0) == place.compared@[k].1);
    }
}

/// The copy of a kind that a scan describes.
spec fn the_copy(
    package: Seq<char>,
    version: Seq<char>,
    target: Seq<char>,
    place: Place,
    kind: PendingKind,
) -> PendingView {
    PendingView {
        pacfile: copy_name(target, kind),
        target,
        kind,
        package,
        installed_version: version,
        verdict: crate::merge::scan::verdict_of(place, copy_name(place.name@, kind)).0,
    }
}

proof fn lemma_the_copy(
    listings: Seq<Listing>,
    package: Seq<char>,
    version: Seq<char>,
    target: Seq<char>,
    place: Place,
    pending: PendingView,
)
    ensures
        is_copy(listings, package, version, target, place, pending) <==> sits_beside(
            listings,
            target,
            place,
            pending.kind,
        ) && pending == the_copy(package, version, target, place, pending.kind),
{
    lemma_verdict(place, copy_name(place.name@, pending.kind), pending.verdict);
}

proof fn lemma_described(
    found: ScanView,
    package: Seq<char>,
    version: Seq<char>,
    target: Seq<char>,
    place: Place,
    kind: PendingKind,
    limits: ScanLimits,
)
    ensures
        ({
            let after = described(found, package, version, target, place, kind, limits);
            &&& found.pending.len() <= after.pending.len()
            &&& after.pending.take(found.pending.len() as int) == found.pending
            &&& after.pending_dropped == 0 ==> found.pending_dropped == 0 && after.pending
                == found.pending.push(the_copy(package, version, target, place, kind))
        }),
{
    lemma_suffixes(target, kind);
    lemma_suffixes(place.name@, kind);
    let after = described(found, package, version, target, place, kind, limits);
    assert(after.pending.take(found.pending.len() as int) =~= found.pending);
}

proof fn lemma_described_all(
    found: ScanView,
    package: Seq<char>,
    version: Seq<char>,
    target: Seq<char>,
    place: Place,
    numbers: Seq<u32>,
    limits: ScanLimits,
)
    ensures
        ({
            let after = described_all(found, package, version, target, place, numbers, limits);
            &&& found.pending.len() <= after.pending.len()
            &&& after.pending.take(found.pending.len() as int) == found.pending
            &&& after.pending_dropped == 0 ==> found.pending_dropped == 0 && after.pending
                == found.pending + Seq::new(
                numbers.len(),
                |k: int|
                    the_copy(
                        package,
                        version,
                        target,
                        place,
                        PendingKind::NumberedPacsave(numbers[k]),
                    ),
            )
        }),
    decreases numbers.len(),
{
    let f = |k: int|
        the_copy(package, version, target, place, PendingKind::NumberedPacsave(numbers[k]));
    let after = described_all(found, package, version, target, place, numbers, limits);
    let n = found.pending.len() as int;
    if numbers.len() == 0 {
        assert(after.pending.take(n) =~= found.pending);
        assert(after.pending =~= found.pending + Seq::new(numbers.len(), f));
    } else {
        let fewer = numbers.drop_last();
        lemma_described_all(found, package, version, target, place, fewer, limits);
        let before = described_all(found, package, version, target, place, fewer, limits);
        let kind = PendingKind::NumberedPacsave(numbers.last());
        lemma_described(before, package, version, target, place, kind, limits);
        assert(after.pending.take(n) =~= after.pending.take(before.pending.len() as int).take(n));
        if after.pending_dropped == 0 {
            assert(after.pending =~= found.pending + Seq::new(numbers.len(), f));
        }
    }
}

proof fn lemma_placed(numbers: Seq<u32>, n: u32, m: u32)
    ensures
        placed(numbers, n).contains(m) <==> numbers.contains(m) || m == n,
    decreases numbers.len(),
{
    if numbers.len() == 0 || numbers.last() <= n {
        lemma_push_holds(numbers, n, m);
    } else {
        let fewer = numbers.drop_last();
        lemma_placed(fewer, n, m);
        lemma_push_holds(placed(fewer, n), numbers.last(), m);
        lemma_push_holds(fewer, numbers.last(), m);
        assert(fewer.push(numbers.last()) =~= numbers);
    }
}

proof fn lemma_numbers_in(
    found: ScanView,
    names: Seq<Seq<char>>,
    target: Seq<char>,
    prefix: Seq<char>,
    limits: ScanLimits,
    n: u32,
)
    ensures
        ({
            let (after, numbers) = numbers_in(found, names, target, prefix, limits);
            &&& after.pending == found.pending
            &&& after.pending_dropped == found.pending_dropped
            &&& numbers.contains(n) <==> names.contains(prefix + text::dec(n as nat))
        }),
    decreases names.len(),
{
    if names.len() > 0 {
        let fewer = names.drop_last();
        let last = names.last();
        let wanted = prefix + text::dec(n as nat);
        lemma_numbers_in(found, fewer, target, prefix, limits, n);
        lemma_push_holds(fewer, last, wanted);
        assert(fewer.push(last) =~= names);
        let numbers = numbers_in(found, fewer, target, prefix, limits).1;
        if last == wanted {
            assert(last.take(prefix.len() as int) =~= prefix);
            assert(last.skip(prefix.len() as int) =~= text::dec(n as nat));
        }
        if let Some(digits) = text::strip_prefix(last, prefix) {
            a_number_reads_back(n, digits);
            if let Some(m) = crate::merge::scan::number_of(digits) {
                a_number_reads_back(m, digits);
                lemma_placed(numbers, m, n);
                if m == n {
                    assert(last =~= wanted);
                }
            }
        }
    }
}

proof fn lemma_listing(listings: Seq<Listing>, target: Seq<char>, i: int)
    requires
        0 <= i <= listings.len(),
        forall|k: int|
            0 <= k < i ==> paths::key_of((#[trigger] listings[k]).parent@) != paths::key_of(
                paths::spec_parent(target),
            ),
    ensures
        forall|k: int| #[trigger]
            is_listing(listings, target, k) ==> listing_of(
                listings,
                paths::spec_parent(target),
                i,
            ) == Some(listings[k]),
        listing_of(listings, paths::spec_parent(target), i) is Some ==> exists|k: int| #[trigger]
            is_listing(listings, target, k),
    decreases listings.len() - i,
{
    let key = paths::key_of(paths::spec_parent(target));
    if i < listings.len() {
        if paths::key_of(listings[i].parent@) == key {
            assert(is_listing(listings, target, i));
            assert forall|k: int| #[trigger] is_listing(listings, target, k) implies k == i by {
                if i < k {
                    assert(paths::key_of(listings[i].parent@) != key);
                }
            }
        } else {
            lemma_listing(listings, target, i + 1);
        }
    }
}

pub(crate) proof fn lemma_numbered(
    state: State,
    listings: Seq<Listing>,
    target: Seq<char>,
    place: Place,
    limits: ScanLimits,
    n: u32,
)
    ensures
        ({
            let (after, numbers) = numbered(state, listings, target, place.name@, limits);
            &&& after.found.pending == state.found.pending
            &&& after.found.pending_dropped == state.found.pending_dropped
            &&& numbers.contains(n) <==> sits_beside(
                listings,
                target,
                place,
                PendingKind::NumberedPacsave(n),
            )
        }),
{
    reveal_strlit(".pacsave");
    reveal_strlit(".pacsave.");
    reveal_strlit(".");
    assert(".pacsave."@ =~= ".pacsave"@ + "."@);
    let prefix = place.name@ + (".pacsave"@ + "."@);
    let copy = copy_name(place.name@, PendingKind::NumberedPacsave(n));
    assert(prefix + text::dec(n as nat) =~= copy);
    lemma_listing(listings, target, 0);
    match listing_of(listings, paths::spec_parent(target), 0) {
        Some(listing) => {
            let i = choose|i: int| #[trigger] is_listing(listings, target, i);
            assert(listings[i] == listing);
            if let Ok(names) = listing.names {
                lemma_numbers_in(state.found, names@, target, prefix, limits, n);
            }
        },
        None => {},
    }
}

proof fn lemma_collected(
    state: State,
    listings: Seq<Listing>,
    package: Seq<char>,
    version: Seq<char>,
    target: Seq<char>,
    place: Place,
    limits: ScanLimits,
    pending: PendingView,
)
    ensures
        ({
            let after = collected(state, listings, package, version, target, place, limits).found;
            &&& state.found.pending.len() <= after.pending.len()
            &&& after.pending.take(state.found.pending.len() as int) == state.found.pending
            &&& after.pending_dropped == 0 ==> state.found.pending_dropped == 0 && (
            after.pending.contains(pending) <==> state.found.pending.contains(pending) || is_copy(
                listings,
                package,
                version,
                target,
                place,
                pending,
            ))
        }),
{
    let before = state.found;
    let n = before.pending.len() as int;
    let pacnew = PendingKind::Pacnew;
    let pacsave = PendingKind::Pacsave;
    lemma_suffixes(place.name@, pacnew);
    lemma_suffixes(place.name@, pacsave);
    lemma_described(before, package, version, target, place, pacnew, limits);
    let first = tested(before, package, version, target, place, pacnew, limits);
    lemma_described(first, package, version, target, place, pacsave, limits);
    let second = tested(first, package, version, target, place, pacsave, limits);
    let (later, numbers) = numbered(
        State { found: second, ..state },
        listings,
        target,
        place.name@,
        limits,
    );
    lemma_numbered(State { found: second, ..state }, listings, target, place, limits, 0);
    lemma_described_all(later.found, package, version, target, place, numbers, limits);
    let after = collected(state, listings, package, version, target, place, limits).found;
    assert(before.pending.take(n) =~= before.pending);
    let m = first.pending.len() as int;
    assert(first.pending.take(m) =~= first.pending);
    let s = second.pending.len() as int;
    assert(second.pending.take(n) =~= second.pending.take(m).take(n));
    assert(after.pending.take(n) =~= after.pending.take(s).take(n));
    if after.pending_dropped == 0 {
        lemma_the_copy(listings, package, version, target, place, pending);
        let one = the_copy(package, version, target, place, pacnew);
        let two = the_copy(package, version, target, place, pacsave);
        lemma_push_holds(before.pending, one, pending);
        lemma_push_holds(first.pending, two, pending);
        let rest = Seq::new(
            numbers.len(),
            |k: int|
                the_copy(
                    package,
                    version,
                    target,
                    place,
                    PendingKind::NumberedPacsave(numbers[k]),
                ),
        );
        crate::laws::lists::lemma_add_holds(second.pending, rest, pending);
        if let PendingKind::NumberedPacsave(number) = pending.kind {
            lemma_numbered(
                State { found: second, ..state },
                listings,
                target,
                place,
                limits,
                number,
            );
            if is_copy(listings, package, version, target, place, pending) {
                let k = choose|k: int| 0 <= k < numbers.len() && numbers[k] == number;
                assert(rest[k] == pending);
            }
        }
        if rest.contains(pending) {
            let k = choose|k: int| 0 <= k < rest.len() && rest[k] == pending;
            assert(pending.kind == PendingKind::NumberedPacsave(numbers[k]));
            assert(numbers.contains(numbers[k]));
        }
    }
}

proof fn lemma_backups(
    state: State,
    listings: Seq<Listing>,
    package: Seq<char>,
    version: Seq<char>,
    backups: Seq<Backup>,
    limits: ScanLimits,
    pending: PendingView,
)
    ensures
        ({
            let after = over_backups(state, listings, package, version, backups, limits).found;
            &&& state.found.pending.len() <= after.pending.len()
            &&& after.pending.take(state.found.pending.len() as int) == state.found.pending
            &&& after.pending_dropped == 0 ==> state.found.pending_dropped == 0 && (
            after.pending.contains(pending) <==> state.found.pending.contains(pending) || exists|
                b: int,
            |
                0 <= b < backups.len() && #[trigger] is_copy_of(
                    listings,
                    package,
                    version,
                    backups,
                    b,
                    pending,
                ))
        }),
    decreases backups.len(),
{
    let after = over_backups(state, listings, package, version, backups, limits).found;
    let n = state.found.pending.len() as int;
    if backups.len() == 0 {
        assert(after.pending.take(n) =~= state.found.pending);
    } else {
        let fewer = backups.drop_last();
        let last = backups.len() - 1;
        lemma_backups(state, listings, package, version, fewer, limits, pending);
        let before = over_backups(state, listings, package, version, fewer, limits);
        if let Ok(place) = backups[last].place {
            lemma_collected(
                before,
                listings,
                package,
                version,
                backups[last].path@,
                place,
                limits,
                pending,
            );
        } else {
            assert(after.pending.take(before.found.pending.len() as int) =~= before.found.pending);
        }
        assert(after.pending.take(n) =~= after.pending.take(
            before.found.pending.len() as int,
        ).take(n));
        assert forall|b: int| 0 <= b < last implies #[trigger] is_copy_of(
            listings,
            package,
            version,
            fewer,
            b,
            pending,
        ) == is_copy_of(listings, package, version, backups, b, pending) by {
            assert(fewer[b] == backups[b]);
        }
        if exists|b: int|
            0 <= b < fewer.len() && #[trigger] is_copy_of(
                listings,
                package,
                version,
                fewer,
                b,
                pending,
            ) {
            let b = choose|b: int|
                0 <= b < fewer.len() && #[trigger] is_copy_of(
                    listings,
                    package,
                    version,
                    fewer,
                    b,
                    pending,
                );
            assert(is_copy_of(listings, package, version, backups, b, pending));
        }
        if exists|b: int|
            0 <= b < backups.len() && #[trigger] is_copy_of(
                listings,
                package,
                version,
                backups,
                b,
                pending,
            ) {
            let b = choose|b: int|
                0 <= b < backups.len() && #[trigger] is_copy_of(
                    listings,
                    package,
                    version,
                    backups,
                    b,
                    pending,
                );
            if b < last {
                assert(is_copy_of(listings, package, version, fewer, b, pending));
            }
        }
        if backups[last].place is Ok {
            assert(is_copy_of(listings, package, version, backups, last, pending) == is_copy(
                listings,
                package,
                version,
                backups[last].path@,
                backups[last].place->Ok_0,
                pending,
            ));
        }
    }
}

proof fn lemma_package(
    state: State,
    listings: Seq<Listing>,
    packages: Seq<Installed>,
    p: int,
    limits: ScanLimits,
    pending: PendingView,
)
    requires
        0 <= p < packages.len(),
    ensures
        ({
            let after = over_package(state, listings, packages[p], limits).found;
            &&& state.found.pending.len() <= after.pending.len()
            &&& after.pending.take(state.found.pending.len() as int) == state.found.pending
            &&& after.pending_dropped == 0 ==> state.found.pending_dropped == 0 && (
            after.pending.contains(pending) <==> state.found.pending.contains(pending)
                || is_copy_in(listings, packages, p, pending))
        }),
{
    match packages[p].backups {
        Ok(backups) => {
            lemma_backups(
                state,
                listings,
                packages[p].name@,
                packages[p].version@,
                backups@,
                limits,
                pending,
            );
        },
        Err(_) => {
            let after = over_package(state, listings, packages[p], limits).found;
            assert(after.pending.take(state.found.pending.len() as int) =~= state.found.pending);
        },
    }
}

/// A scan that withholds nothing finds every copy that sits beside a backup file of a package, with
/// its package, its version and what comparing it gave, and finds nothing else.
pub proof fn a_scan_finds_every_copy(
    listings: Seq<Listing>,
    packages: Seq<Installed>,
    limits: ScanLimits,
    pending: PendingView,
)
    requires
        over_packages(listings, packages, limits).found.pending_dropped == 0,
    ensures
        over_packages(listings, packages, limits).found.pending.contains(pending) <==> exists|
            p: int,
        |
            0 <= p < packages.len() && #[trigger] is_copy_in(listings, packages, p, pending),
    decreases packages.len(),
{
    if packages.len() > 0 {
        let fewer = packages.drop_last();
        let last = packages.len() - 1;
        let before = over_packages(listings, fewer, limits);
        lemma_package(before, listings, packages, last, limits, pending);
        a_scan_finds_every_copy(listings, fewer, limits, pending);
        assert forall|p: int| 0 <= p < last implies #[trigger] is_copy_in(
            listings,
            fewer,
            p,
            pending,
        ) == is_copy_in(listings, packages, p, pending) by {
            assert(fewer[p] == packages[p]);
        }
        if exists|p: int| 0 <= p < last && #[trigger] is_copy_in(listings, fewer, p, pending) {
            let p = choose|p: int|
                0 <= p < last && #[trigger] is_copy_in(listings, fewer, p, pending);
            assert(is_copy_in(listings, packages, p, pending));
        }
        if exists|p: int|
            0 <= p < packages.len() && #[trigger] is_copy_in(listings, packages, p, pending) {
            let p = choose|p: int|
                0 <= p < packages.len() && #[trigger] is_copy_in(listings, packages, p, pending);
            if p < last {
                assert(is_copy_in(listings, fewer, p, pending));
            }
        }
    }
}

/// What a scan found of the first packages comes before what it finds of the others.
pub proof fn a_scan_goes_in_database_order(
    listings: Seq<Listing>,
    packages: Seq<Installed>,
    limits: ScanLimits,
    n: int,
)
    requires
        0 <= n <= packages.len(),
    ensures
        over_packages(listings, packages.take(n), limits).found.pending.is_prefix_of(
            over_packages(listings, packages, limits).found.pending,
        ),
    decreases packages.len(),
{
    let whole = over_packages(listings, packages, limits).found.pending;
    let part = over_packages(listings, packages.take(n), limits).found.pending;
    if n == packages.len() {
        assert(packages.take(n) =~= packages);
        assert(part =~= whole.subrange(0, part.len() as int));
    } else {
        let fewer = packages.drop_last();
        let last = packages.len() - 1;
        let before = over_packages(listings, fewer, limits);
        a_scan_goes_in_database_order(listings, fewer, limits, n);
        assert(fewer.take(n) =~= packages.take(n));
        let any = PendingView {
            pacfile: Seq::empty(),
            target: Seq::empty(),
            kind: PendingKind::Pacnew,
            package: Seq::empty(),
            installed_version: Seq::empty(),
            verdict: Verdict::Differs,
        };
        lemma_package(before, listings, packages, last, limits, any);
        let m = before.found.pending.len() as int;
        assert(part =~= whole.subrange(0, part.len() as int)) by {
            assert(whole.take(m) == before.found.pending);
            assert(before.found.pending.subrange(0, part.len() as int) == part);
            assert(whole.take(m).subrange(0, part.len() as int) =~= whole.subrange(
                0,
                part.len() as int,
            ));
        }
    }
}

/// The copies of one target come in one order: the `.pacnew`, the `.pacsave`, and then those with a
/// number, in the order of the numbers.
pub proof fn copies_of_one_target_come_in_order(
    state: State,
    listings: Seq<Listing>,
    package: Seq<char>,
    version: Seq<char>,
    target: Seq<char>,
    place: Place,
    limits: ScanLimits,
    i: int,
    j: int,
)
    requires
        collected(
            state,
            listings,
            package,
            version,
            target,
            place,
            limits,
        ).found.pending_dropped == 0,
        state.found.pending.len() <= i < j < collected(
            state,
            listings,
            package,
            version,
            target,
            place,
            limits,
        ).found.pending.len(),
    ensures
        ({
            let pending = collected(
                state,
                listings,
                package,
                version,
                target,
                place,
                limits,
            ).found.pending;
            rank(pending[i].kind) <= rank(pending[j].kind)
        }),
{
    let before = state.found;
    let pacnew = PendingKind::Pacnew;
    let pacsave = PendingKind::Pacsave;
    lemma_suffixes(place.name@, pacnew);
    lemma_suffixes(place.name@, pacsave);
    lemma_described(before, package, version, target, place, pacnew, limits);
    let first = tested(before, package, version, target, place, pacnew, limits);
    lemma_described(first, package, version, target, place, pacsave, limits);
    let second = tested(first, package, version, target, place, pacsave, limits);
    let (later, numbers) = numbered(
        State { found: second, ..state },
        listings,
        target,
        place.name@,
        limits,
    );
    lemma_numbered(State { found: second, ..state }, listings, target, place, limits, 0);
    lemma_described_all(later.found, package, version, target, place, numbers, limits);
    let after = collected(state, listings, package, version, target, place, limits).found;
    let n = second.pending.len();
    assert forall|k: int| 0 <= k < numbers.len() implies #[trigger] after.pending[n + k].kind
        == PendingKind::NumberedPacsave(numbers[k]) by {}
    if i >= n {
        match listing_of(listings, paths::spec_parent(target), 0) {
            Some(listing) => {
                if let Ok(names) = listing.names {
                    crate::merge::scan::numbered_copies_ascend(
                        second,
                        names@,
                        target,
                        place.name@ + (".pacsave"@ + "."@),
                        limits,
                    );
                }
            },
            None => {},
        }
        assert(after.pending[n + (i - n)].kind == PendingKind::NumberedPacsave(numbers[i - n]));
        assert(after.pending[n + (j - n)].kind == PendingKind::NumberedPacsave(numbers[j - n]));
        assert(numbers[i - n] <= numbers[j - n]);
    } else if j >= n {
        assert(after.pending[n + (j - n)].kind == PendingKind::NumberedPacsave(numbers[j - n]));
    }
}

/// Where a copy of a kind stands among the copies of its target.
pub open spec fn rank(kind: PendingKind) -> int {
    match kind {
        PendingKind::Pacnew => 0,
        PendingKind::Pacsave => 1,
        PendingKind::NumberedPacsave(n) => 2 + n,
    }
}

// ---------------------------------------------------------------------------------------------
// Bases

/// Whether entry `e` of a cache directory is a file, and no signature, whose name is that of a
/// build of a package that is older than the installed one, and is the candidate.
pub open spec fn is_older_file(
    path: Seq<char>,
    entry: CacheEntry,
    package: Seq<char>,
    installed: Seq<char>,
    candidate: BaseCandidateView,
) -> bool {
    &&& entry.is_file
    &&& entry.name is Some
    &&& !text::ends_with(entry.name->0@, ".sig"@)
    &&& file_name_of(entry.name->0@) == Some(candidate.file_name)
    &&& candidate.file_name.name == package
    &&& ordered(candidate.file_name.version, installed) == Some(-1i8)
    &&& candidate.path == within(path, entry.name->0@)
}

/// Whether an entry of directory `d`, among as many as are looked at, is the candidate.
pub open spec fn is_cached(
    directories: Seq<CacheDirectory>,
    max: usize,
    package: Seq<char>,
    installed: Seq<char>,
    candidate: BaseCandidateView,
    d: int,
    e: int,
) -> bool {
    &&& 0 <= d < directories.len()
    &&& directories[d].entries is Some
    &&& 0 <= e < directories[d].entries->0@.len()
    &&& e < max
    &&& is_older_file(
        directories[d].path@,
        directories[d].entries->0@[e],
        package,
        installed,
        candidate,
    )
}

proof fn lemma_candidate(
    path: Seq<char>,
    entry: CacheEntry,
    package: Seq<char>,
    installed: Seq<char>,
    candidate: BaseCandidateView,
)
    ensures
        candidate_of(path, entry, package, installed) == Some(candidate) <==> is_older_file(
            path,
            entry,
            package,
            installed,
            candidate,
        ),
{
}

proof fn lemma_best_in(
    best: Option<BaseCandidateView>,
    path: Seq<char>,
    entries: Seq<CacheEntry>,
    package: Seq<char>,
    installed: Seq<char>,
)
    ensures
        ({
            let found = best_in(best, path, entries, package, installed);
            &&& best is Some ==> found is Some
            &&& found is Some && found != best ==> exists|e: int|
                0 <= e < entries.len() && is_older_file(
                    path,
                    #[trigger] entries[e],
                    package,
                    installed,
                    found->0,
                )
            &&& forall|e: int, c: BaseCandidateView|
                0 <= e < entries.len() && #[trigger] is_older_file(
                    path,
                    entries[e],
                    package,
                    installed,
                    c,
                ) ==> found is Some
        }),
    decreases entries.len(),
{
    if entries.len() > 0 {
        let fewer = entries.drop_last();
        let last = entries.len() - 1;
        lemma_best_in(best, path, fewer, package, installed);
        let before = best_in(best, path, fewer, package, installed);
        let found = best_in(best, path, entries, package, installed);
        if found is Some {
            lemma_candidate(path, entries[last], package, installed, found->0);
        }
        if found is Some && found != best {
            if found == before {
                let e = choose|e: int|
                    0 <= e < fewer.len() && is_older_file(
                        path,
                        #[trigger] fewer[e],
                        package,
                        installed,
                        found->0,
                    );
                assert(is_older_file(path, entries[e], package, installed, found->0));
            } else {
                assert(is_older_file(path, entries[last], package, installed, found->0));
            }
        }
        assert forall|e: int, c: BaseCandidateView|
            0 <= e < entries.len() && #[trigger] is_older_file(
                path,
                entries[e],
                package,
                installed,
                c,
            ) implies found is Some by {
            lemma_candidate(path, entries[last], package, installed, c);
            if e < last {
                assert(is_older_file(path, fewer[e], package, installed, c));
            }
        }
    }
}

/// A base is a file of a cache that is an older build of the package, by its own path; and one is
/// found wherever there is such a file.
pub proof fn a_base_is_a_file_of_a_cache(
    directories: Seq<CacheDirectory>,
    max: usize,
    package: Seq<char>,
    installed: Seq<char>,
)
    ensures
        ({
            let found = best_of(directories, max, package, installed);
            &&& found is Some ==> exists|d: int, e: int| #[trigger]
                is_cached(directories, max, package, installed, found->0, d, e)
            &&& forall|c: BaseCandidateView, d: int, e: int| #[trigger]
                is_cached(directories, max, package, installed, c, d, e) ==> found is Some
        }),
    decreases directories.len(),
{
    if directories.len() > 0 {
        let fewer = directories.drop_last();
        let last = directories.len() - 1;
        a_base_is_a_file_of_a_cache(fewer, max, package, installed);
        let before = best_of(fewer, max, package, installed);
        let found = best_of(directories, max, package, installed);
        let path = directories[last].path@;
        let entries = looked_at(directories[last], max);
        lemma_best_in(before, path, entries, package, installed);
        if found is Some {
            if found == before {
                let (d, e) = choose|d: int, e: int| #[trigger]
                    is_cached(fewer, max, package, installed, found->0, d, e);
                assert(is_cached(directories, max, package, installed, found->0, d, e));
            } else {
                let e = choose|e: int|
                    0 <= e < entries.len() && is_older_file(
                        path,
                        #[trigger] entries[e],
                        package,
                        installed,
                        found->0,
                    );
                assert(is_cached(directories, max, package, installed, found->0, last, e));
            }
        }
        assert forall|c: BaseCandidateView, d: int, e: int| #[trigger]
            is_cached(directories, max, package, installed, c, d, e) implies found is Some by {
            if d < last {
                assert(is_cached(fewer, max, package, installed, c, d, e));
            } else {
                assert(is_older_file(path, entries[e], package, installed, c));
            }
        }
    }
}

/// What is taken from a package is the first member that has the wanted path.
pub proof fn the_first_member_of_a_path_is_taken(
    members: Seq<Content>,
    wanted: Seq<char>,
    i: int,
)
    requires
        0 <= i <= members.len(),
        forall|k: int|
            0 <= k < i ==> paths::names((#[trigger] members[k]).member.path@) != paths::names(
                wanted,
            ),
    ensures
        match first_wanted(members, wanted, i) {
            Some(content) => exists|j: int|
                0 <= j < members.len() && members[j] == content && paths::names(
                    (#[trigger] members[j]).member.path@,
                ) == paths::names(wanted) && forall|k: int|
                    0 <= k < j ==> paths::names((#[trigger] members[k]).member.path@)
                        != paths::names(wanted),
            None => forall|k: int|
                0 <= k < members.len() ==> paths::names((#[trigger] members[k]).member.path@)
                    != paths::names(wanted),
        },
    decreases members.len() - i,
{
    if i < members.len() && !is_wanted(members[i].member, wanted) {
        the_first_member_of_a_path_is_taken(members, wanted, i + 1);
    }
}

// ---------------------------------------------------------------------------------------------
// Answers

/// The contents of a name in a directory after steps were carried out, from what they were before.
pub open spec fn contents_after(
    before: Map<Seq<char>, Seq<u8>>,
    steps: Seq<StepView>,
) -> Map<Seq<char>, Seq<u8>>
    decreases steps.len(),
{
    if steps.len() == 0 {
        before
    } else {
        let so_far = contents_after(before, steps.drop_last());
        match steps.last() {
            StepView::Write { name, contents } => so_far.insert(name, contents),
            StepView::Unlink { name } => so_far.remove(name),
            StepView::Rename { from, to } => so_far.insert(to, so_far[from]).remove(from),
        }
    }
}

/// After an answer the target holds what the answer says: what it held, what the pending file held,
/// or what was merged. The pending file is gone unless it was skipped, and every other name of the
/// directory holds what it held.
pub proof fn an_answer_does_what_it_says(
    pending: PendingView,
    action: Action,
    before: Map<Seq<char>, Seq<u8>>,
    name: Seq<char>,
    other: Seq<char>,
)
    requires
        paths::spec_file_name(pending.target) == Some(name),
        before.dom().contains(copy_name(name, pending.kind)),
        other != name,
        other != copy_name(name, pending.kind),
    ensures
        ({
            let after = contents_after(before, steps_of(pending, action));
            let copy = copy_name(name, pending.kind);
            &&& after.dom().contains(other) == before.dom().contains(other)
            &&& after[other] == before[other]
            &&& after.dom().contains(copy) <==> action is Skip
            &&& match action {
                Action::Skip => after == before,
                Action::Remove => after.dom().contains(name) == before.dom().contains(name)
                    && after[name] == before[name],
                Action::Overwrite => after.dom().contains(name) && after[name] == before[copy],
                Action::UseMerged { contents } => after.dom().contains(name) && after[name]
                    == contents@,
            }
        }),
{
    lemma_suffixes(name, pending.kind);
    let copy = copy_name(name, pending.kind);
    assert(copy.len() > name.len()) by {
        reveal_strlit(".pacnew");
        reveal_strlit(".pacsave");
        reveal_strlit(".pacsave.");
    }
    let steps = steps_of(pending, action);
    reveal_with_fuel(contents_after, 3);
    if steps.len() > 0 {
        let fewer = steps.drop_last();
        if steps.len() == 1 {
            assert(fewer =~= Seq::<StepView>::empty());
        } else {
            assert(fewer.drop_last() =~= Seq::<StepView>::empty());
            assert(fewer.last() == steps[0]);
        }
        assert(steps.last() == steps[steps.len() - 1]);
    }
}

} // verus!
