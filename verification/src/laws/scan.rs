//! What a scan for pending files reports as a problem.

use vstd::prelude::*;

use crate::laws::lists::lemma_push_holds;
use crate::laws::merge::{copy_name, is_answer, is_listing, sits_beside};
use crate::merge::scan::{
    collected, described, described_all, listing_of, number_of, numbered, numbers_in, over_backups,
    over_package, over_packages, tested, Backup, Compared, Installed, Listing, Place, ScanLimits,
    ScanView, State,
};
use crate::merge::{PendingKind, ProblemView};
use crate::paths;
use crate::text;

verus! {

/// Whether comparing a copy of a kind with its target failed for a reason.
pub open spec fn fails(place: Place, kind: PendingKind, reason: Seq<char>) -> bool {
    &&& text::texts(place.present@).contains(place.name@)
    &&& exists|k: int| #[trigger]
        is_answer(place, copy_name(place.name@, kind), k) && (place.compared@[k].1 matches Compared::Failed(
            why,
        ) && why@ == reason)
}

/// Whether a directory lists a copy whose number is no number.
pub open spec fn is_misnumbered(
    listings: Seq<Listing>,
    target: Seq<char>,
    place: Place,
    digits: Seq<char>,
) -> bool {
    &&& number_of(digits) is None
    &&& exists|i: int| #[trigger]
        is_listing(listings, target, i) && listings[i].names is Ok
            && listings[i].names->Ok_0@.contains(place.name@ + ".pacsave."@ + digits)
}

/// Whether a problem is one of a target: a copy that could not be compared, or one that carries no
/// usable number.
pub open spec fn is_problem_at(
    listings: Seq<Listing>,
    target: Seq<char>,
    place: Place,
    problem: ProblemView,
) -> bool {
    match problem {
        ProblemView::Uncomparable { path, reason } => exists|kind: PendingKind| #[trigger]
            sits_beside(listings, target, place, kind) && path == copy_name(target, kind) && fails(
                place,
                kind,
                reason,
            ),
        ProblemView::UnusableNumber { path } => exists|digits: Seq<char>| #[trigger]
            is_misnumbered(listings, target, place, digits) && path == target + ".pacsave."@
                + digits,
        _ => false,
    }
}

/// Whether a problem is one of backup file `b` of a list.
pub open spec fn is_problem_of(
    listings: Seq<Listing>,
    backups: Seq<Backup>,
    b: int,
    problem: ProblemView,
) -> bool {
    match backups[b].place {
        Err(why) => problem == (ProblemView::OutsideRoot {
            path: backups[b].path@,
            reason: why@,
        }),
        Ok(place) => is_problem_at(listings, backups[b].path@, place, problem),
    }
}

/// Whether a problem is one of package `p` of a list.
pub open spec fn is_problem_in(
    listings: Seq<Listing>,
    packages: Seq<Installed>,
    p: int,
    problem: ProblemView,
) -> bool {
    match packages[p].backups {
        Err(why) => problem == (ProblemView::UnreadableEntry {
            package: packages[p].entry@,
            reason: why@,
        }),
        Ok(backups) => exists|b: int|
            0 <= b < backups@.len() && #[trigger] is_problem_of(listings, backups@, b, problem),
    }
}

proof fn lemma_names(name: Seq<char>, kind: PendingKind)
    ensures
        name + kind.spec_suffix() == copy_name(name, kind),
        ".pacsave."@ == ".pacsave"@ + "."@,
{
    reveal_strlit(".pacsave");
    reveal_strlit(".pacsave.");
    reveal_strlit(".");
    assert(".pacsave."@ =~= ".pacsave"@ + "."@);
    assert(name + kind.spec_suffix() =~= copy_name(name, kind));
}

proof fn lemma_answered(place: Place, copy: Seq<char>, i: int)
    requires
        0 <= i <= place.compared@.len(),
        forall|j: int| 0 <= j < i ==> (#[trigger] place.compared@[j]).0@ != copy,
    ensures
        forall|k: int| #[trigger]
            is_answer(place, copy, k) ==> crate::merge::scan::answer(place.compared@, copy, i)
                == place.compared@[k].1,
        crate::merge::scan::answer(place.compared@, copy, i) == Compared::Missing || exists|k: int|
            #[trigger] is_answer(place, copy, k),
    decreases place.compared@.len() - i,
{
    if i < place.compared@.len() {
        if place.compared@[i].0@ == copy {
            assert(is_answer(place, copy, i));
            assert forall|k: int| #[trigger] is_answer(place, copy, k) implies k == i by {
                if i < k {
                    assert(place.compared@[i].0@ != copy);
                }
            }
        } else {
            lemma_answered(place, copy, i + 1);
        }
    } else {
        assert forall|k: int| !#[trigger] is_answer(place, copy, k) by {}
    }
}

proof fn lemma_fails(place: Place, kind: PendingKind, reason: Seq<char>)
    ensures
        fails(place, kind, reason) <==> crate::merge::scan::verdict_of(
            place,
            copy_name(place.name@, kind),
        ).1 == Some(reason),
{
    let copy = copy_name(place.name@, kind);
    lemma_answered(place, copy, 0);
    if crate::merge::scan::verdict_of(place, copy).1 == Some(reason) {
        let k = choose|k: int| #[trigger] is_answer(place, copy, k);
        assert(crate::merge::scan::answer(place.compared@, copy, 0) == place.compared@[k].1);
    }
}

/// Whether a problem is that a copy of a kind could not be compared.
spec fn is_failure(
    target: Seq<char>,
    place: Place,
    kind: PendingKind,
    problem: ProblemView,
) -> bool {
    problem matches ProblemView::Uncomparable { path, reason } && path == copy_name(target, kind)
        && fails(place, kind, reason)
}

proof fn lemma_described(
    found: ScanView,
    package: Seq<char>,
    version: Seq<char>,
    target: Seq<char>,
    place: Place,
    kind: PendingKind,
    limits: ScanLimits,
    problem: ProblemView,
)
    ensures
        ({
            let after = described(found, package, version, target, place, kind, limits);
            after.problems_dropped == 0 ==> found.problems_dropped == 0 && (
            after.problems.contains(problem) <==> found.problems.contains(problem) || is_failure(
                target,
                place,
                kind,
                problem,
            ))
        }),
{
    lemma_names(target, kind);
    lemma_names(place.name@, kind);
    let pacfile = copy_name(target, kind);
    let reason = crate::merge::scan::verdict_of(place, copy_name(place.name@, kind)).1;
    if let ProblemView::Uncomparable { path, reason: why } = problem {
        lemma_fails(place, kind, why);
    }
    if let Some(why) = reason {
        lemma_fails(place, kind, why);
        lemma_push_holds(
            found.problems,
            ProblemView::Uncomparable { path: pacfile, reason: why },
            problem,
        );
    }
}

proof fn lemma_described_all(
    found: ScanView,
    package: Seq<char>,
    version: Seq<char>,
    target: Seq<char>,
    place: Place,
    numbers: Seq<u32>,
    limits: ScanLimits,
    problem: ProblemView,
)
    ensures
        ({
            let after = described_all(found, package, version, target, place, numbers, limits);
            after.problems_dropped == 0 ==> found.problems_dropped == 0 && (
            after.problems.contains(problem) <==> found.problems.contains(problem) || exists|k: int|
                0 <= k < numbers.len() && is_failure(
                    target,
                    place,
                    PendingKind::NumberedPacsave(#[trigger] numbers[k]),
                    problem,
                ))
        }),
    decreases numbers.len(),
{
    if numbers.len() > 0 {
        let fewer = numbers.drop_last();
        let last = numbers.len() - 1;
        lemma_described_all(found, package, version, target, place, fewer, limits, problem);
        let before = described_all(found, package, version, target, place, fewer, limits);
        lemma_described(
            before,
            package,
            version,
            target,
            place,
            PendingKind::NumberedPacsave(numbers[last]),
            limits,
            problem,
        );
        if exists|k: int|
            0 <= k < fewer.len() && is_failure(
                target,
                place,
                PendingKind::NumberedPacsave(#[trigger] fewer[k]),
                problem,
            ) {
            let k = choose|k: int|
                0 <= k < fewer.len() && is_failure(
                    target,
                    place,
                    PendingKind::NumberedPacsave(#[trigger] fewer[k]),
                    problem,
                );
            assert(numbers[k] == fewer[k]);
        }
        if exists|k: int|
            0 <= k < numbers.len() && is_failure(
                target,
                place,
                PendingKind::NumberedPacsave(#[trigger] numbers[k]),
                problem,
            ) {
            let k = choose|k: int|
                0 <= k < numbers.len() && is_failure(
                    target,
                    place,
                    PendingKind::NumberedPacsave(#[trigger] numbers[k]),
                    problem,
                );
            if k < last {
                assert(fewer[k] == numbers[k]);
            }
        }
    }
}

proof fn lemma_numbers_in(
    found: ScanView,
    names: Seq<Seq<char>>,
    target: Seq<char>,
    prefix: Seq<char>,
    limits: ScanLimits,
    problem: ProblemView,
)
    ensures
        ({
            let after = numbers_in(found, names, target, prefix, limits).0;
            after.problems_dropped == 0 ==> found.problems_dropped == 0 && (
            after.problems.contains(problem) <==> found.problems.contains(problem) || exists|
                digits: Seq<char>,
            | #[trigger]
                names.contains(prefix + digits) && number_of(digits) is None && problem == (
                ProblemView::UnusableNumber { path: target + (".pacsave"@ + "."@ + digits) }))
        }),
    decreases names.len(),
{
    if names.len() > 0 {
        let fewer = names.drop_last();
        let last = names.last();
        lemma_numbers_in(found, fewer, target, prefix, limits, problem);
        let before = numbers_in(found, fewer, target, prefix, limits).0;
        assert(fewer.push(last) =~= names);
        if let Some(digits) = text::strip_prefix(last, prefix) {
            let noted = ProblemView::UnusableNumber {
                path: target + (".pacsave"@ + "."@ + digits),
            };
            lemma_push_holds(before.problems, noted, problem);
            assert(last =~= prefix + digits);
            assert(names[names.len() - 1] == prefix + digits);
            assert(names.contains(prefix + digits));
        }
        if exists|digits: Seq<char>| #[trigger]
            fewer.contains(prefix + digits) && number_of(digits) is None && problem == (
            ProblemView::UnusableNumber { path: target + (".pacsave"@ + "."@ + digits) }) {
            let digits = choose|digits: Seq<char>| #[trigger]
                fewer.contains(prefix + digits) && number_of(digits) is None && problem == (
                ProblemView::UnusableNumber { path: target + (".pacsave"@ + "."@ + digits) });
            lemma_push_holds(fewer, last, prefix + digits);
            assert(names.contains(prefix + digits));
        }
        if exists|digits: Seq<char>| #[trigger]
            names.contains(prefix + digits) && number_of(digits) is None && problem == (
            ProblemView::UnusableNumber { path: target + (".pacsave"@ + "."@ + digits) }) {
            let digits = choose|digits: Seq<char>| #[trigger]
                names.contains(prefix + digits) && number_of(digits) is None && problem == (
                ProblemView::UnusableNumber { path: target + (".pacsave"@ + "."@ + digits) });
            lemma_push_holds(fewer, last, prefix + digits);
            if last == prefix + digits {
                assert(last.take(prefix.len() as int) =~= prefix);
                assert(last.skip(prefix.len() as int) =~= digits);
            }
        }
    }
}

proof fn lemma_first_listing(listings: Seq<Listing>, target: Seq<char>, i: int)
    requires
        0 <= i <= listings.len(),
        forall|k: int|
            0 <= k < i ==> paths::key_of((#[trigger] listings[k]).parent@) != paths::key_of(
                paths::spec_parent(target),
            ),
    ensures
        forall|k: int| #[trigger]
            is_listing(listings, target, k) ==> listing_of(
                listings,
                paths::spec_parent(target),
                i,
            ) == Some(listings[k]),
        listing_of(listings, paths::spec_parent(target), i) is Some ==> exists|k: int| #[trigger]
            is_listing(listings, target, k),
    decreases listings.len() - i,
{
    let key = paths::key_of(paths::spec_parent(target));
    if i < listings.len() {
        if paths::key_of(listings[i].parent@) == key {
            assert(is_listing(listings, target, i));
            assert forall|k: int| #[trigger] is_listing(listings, target, k) implies k == i by {
                if i < k {
                    assert(paths::key_of(listings[i].parent@) != key);
                }
            }
        } else {
            lemma_first_listing(listings, target, i + 1);
        }
    }
}

proof fn lemma_numbered(
    state: State,
    listings: Seq<Listing>,
    target: Seq<char>,
    place: Place,
    limits: ScanLimits,
    problem: ProblemView,
)
    requires
        problem !is UnlistableDirectory,
    ensures
        ({
            let after = numbered(state, listings, target, place.name@, limits).0.found;
            after.problems_dropped == 0 ==> state.found.problems_dropped == 0 && (
            after.problems.contains(problem) <==> state.found.problems.contains(problem) || exists|
                digits: Seq<char>,
            | #[trigger]
                is_misnumbered(listings, target, place, digits) && problem == (
                ProblemView::UnusableNumber { path: target + ".pacsave."@ + digits }))
        }),
{
    lemma_names(target, PendingKind::Pacsave);
    let prefix = place.name@ + (".pacsave"@ + "."@);
    let after = numbered(state, listings, target, place.name@, limits).0.found;
    lemma_first_listing(listings, target, 0);
    assert forall|digits: Seq<char>| true implies target + (".pacsave"@ + "."@ + digits)
        == #[trigger] (target + ".pacsave."@ + digits) by {
        assert(target + (".pacsave"@ + "."@ + digits) =~= target + ".pacsave."@ + digits);
    }
    match listing_of(listings, paths::spec_parent(target), 0) {
        Some(listing) => {
            let i = choose|i: int| #[trigger] is_listing(listings, target, i);
            assert(listings[i] == listing);
            match listing.names {
                Ok(names) => {
                    lemma_numbers_in(state.found, names@, target, prefix, limits, problem);
                    if exists|digits: Seq<char>| #[trigger]
                        is_misnumbered(listings, target, place, digits) && problem == (
                        ProblemView::UnusableNumber { path: target + ".pacsave."@ + digits }) {
                        let digits = choose|digits: Seq<char>| #[trigger]
                            is_misnumbered(listings, target, place, digits) && problem == (
                            ProblemView::UnusableNumber { path: target + ".pacsave."@ + digits });
                        assert(names@.contains(prefix + digits));
                    }
                    if exists|digits: Seq<char>| #[trigger]
                        names@.contains(prefix + digits) && number_of(digits) is None && problem
                            == (ProblemView::UnusableNumber {
                            path: target + (".pacsave"@ + "."@ + digits),
                        }) {
                        let digits = choose|digits: Seq<char>| #[trigger]
                            names@.contains(prefix + digits) && number_of(digits) is None
                                && problem == (ProblemView::UnusableNumber {
                                path: target + (".pacsave"@ + "."@ + digits),
                            });
                        assert(prefix + digits == place.name@ + ".pacsave."@ + digits);
                        assert(is_misnumbered(listings, target, place, digits));
                        assert(problem == (ProblemView::UnusableNumber {
                            path: target + ".pacsave."@ + digits,
                        }));
                    }
                },
                Err(reason) => {
                    lemma_push_holds(
                        state.found.problems,
                        ProblemView::UnlistableDirectory {
                            path: paths::spec_parent(target),
                            reason: reason@,
                        },
                        problem,
                    );
                },
            }
        },
        None => {},
    }
}

proof fn lemma_collected(
    state: State,
    listings: Seq<Listing>,
    package: Seq<char>,
    version: Seq<char>,
    target: Seq<char>,
    place: Place,
    limits: ScanLimits,
    problem: ProblemView,
)
    requires
        problem !is UnlistableDirectory,
    ensures
        ({
            let after = collected(state, listings, package, version, target, place, limits).found;
            after.problems_dropped == 0 ==> state.found.problems_dropped == 0 && (
            after.problems.contains(problem) <==> state.found.problems.contains(problem)
                || is_problem_at(listings, target, place, problem))
        }),
{
    let pacnew = PendingKind::Pacnew;
    let pacsave = PendingKind::Pacsave;
    lemma_names(place.name@, pacnew);
    lemma_names(place.name@, pacsave);
    let before = state.found;
    lemma_described(before, package, version, target, place, pacnew, limits, problem);
    let first = tested(before, package, version, target, place, pacnew, limits);
    lemma_described(first, package, version, target, place, pacsave, limits, problem);
    let second = tested(first, package, version, target, place, pacsave, limits);
    let middle = State { found: second, ..state };
    lemma_numbered(middle, listings, target, place, limits, problem);
    let (later, numbers) = numbered(middle, listings, target, place.name@, limits);
    lemma_described_all(later.found, package, version, target, place, numbers, limits, problem);
    let after = collected(state, listings, package, version, target, place, limits).found;
    if after.problems_dropped == 0 {
        if exists|k: int|
            0 <= k < numbers.len() && is_failure(
                target,
                place,
                PendingKind::NumberedPacsave(#[trigger] numbers[k]),
                problem,
            ) {
            let k = choose|k: int|
                0 <= k < numbers.len() && is_failure(
                    target,
                    place,
                    PendingKind::NumberedPacsave(#[trigger] numbers[k]),
                    problem,
                );
            assert(numbers.contains(numbers[k]));
            crate::laws::merge::lemma_numbered(
                middle,
                listings,
                target,
                place,
                limits,
                numbers[k],
            );
            assert(sits_beside(
                listings,
                target,
                place,
                PendingKind::NumberedPacsave(numbers[k]),
            ));
        }
        if is_failure(target, place, pacnew, problem) {
            assert(sits_beside(listings, target, place, pacnew) == text::texts(
                place.present@,
            ).contains(copy_name(place.name@, pacnew)));
        }
        if is_failure(target, place, pacsave, problem) {
            assert(sits_beside(listings, target, place, pacsave) == text::texts(
                place.present@,
            ).contains(copy_name(place.name@, pacsave)));
        }
        if is_problem_at(listings, target, place, problem) {
            if let ProblemView::Uncomparable { path, reason } = problem {
                let kind = choose|kind: PendingKind| #[trigger]
                    sits_beside(listings, target, place, kind) && path == copy_name(target, kind)
                        && fails(place, kind, reason);
                assert(is_failure(target, place, kind, problem));
                if let PendingKind::NumberedPacsave(n) = kind {
                    crate::laws::merge::lemma_numbered(
                        middle,
                        listings,
                        target,
                        place,
                        limits,
                        n,
                    );
                    let k = choose|k: int| 0 <= k < numbers.len() && numbers[k] == n;
                    assert(is_failure(
                        target,
                        place,
                        PendingKind::NumberedPacsave(numbers[k]),
                        problem,
                    ));
                }
            }
        }
    }
}

proof fn lemma_backups(
    state: State,
    listings: Seq<Listing>,
    package: Seq<char>,
    version: Seq<char>,
    backups: Seq<Backup>,
    limits: ScanLimits,
    problem: ProblemView,
)
    requires
        problem !is UnlistableDirectory,
    ensures
        ({
            let after = over_backups(state, listings, package, version, backups, limits).found;
            after.problems_dropped == 0 ==> state.found.problems_dropped == 0 && (
            after.problems.contains(problem) <==> state.found.problems.contains(problem) || exists|
                b: int,
            |
                0 <= b < backups.len() && #[trigger] is_problem_of(listings, backups, b, problem))
        }),
    decreases backups.len(),
{
    if backups.len() > 0 {
        let fewer = backups.drop_last();
        let last = backups.len() - 1;
        lemma_backups(state, listings, package, version, fewer, limits, problem);
        let before = over_backups(state, listings, package, version, fewer, limits);
        match backups[last].place {
            Ok(place) => {
                lemma_collected(
                    before,
                    listings,
                    package,
                    version,
                    backups[last].path@,
                    place,
                    limits,
                    problem,
                );
            },
            Err(reason) => {
                lemma_push_holds(
                    before.found.problems,
                    ProblemView::OutsideRoot { path: backups[last].path@, reason: reason@ },
                    problem,
                );
            },
        }
        assert forall|b: int| 0 <= b < last implies #[trigger] is_problem_of(
            listings,
            fewer,
            b,
            problem,
        ) == is_problem_of(listings, backups, b, problem) by {
            assert(fewer[b] == backups[b]);
        }
        if exists|b: int|
            0 <= b < last && #[trigger] is_problem_of(listings, fewer, b, problem) {
            let b = choose|b: int|
                0 <= b < last && #[trigger] is_problem_of(listings, fewer, b, problem);
            assert(is_problem_of(listings, backups, b, problem));
        }
        if exists|b: int|
            0 <= b < backups.len() && #[trigger] is_problem_of(listings, backups, b, problem) {
            let b = choose|b: int|
                0 <= b < backups.len() && #[trigger] is_problem_of(listings, backups, b, problem);
            if b < last {
                assert(is_problem_of(listings, fewer, b, problem));
            }
        }
        let here = is_problem_of(listings, backups, last, problem);
        assert(here ==> exists|b: int|
            0 <= b < backups.len() && #[trigger] is_problem_of(listings, backups, b, problem));
    }
}

/// A scan that withholds no problem reports every backup list that cannot be read, every backup file
/// outside of the root, every copy that could not be compared and every one without a usable number,
/// each with its own words, and beside directories that cannot be listed nothing else.
pub proof fn a_scan_reports_every_problem(
    listings: Seq<Listing>,
    packages: Seq<Installed>,
    limits: ScanLimits,
    problem: ProblemView,
)
    requires
        problem !is UnlistableDirectory,
        over_packages(listings, packages, limits).found.problems_dropped == 0,
    ensures
        over_packages(listings, packages, limits).found.problems.contains(problem) <==> exists|
            p: int,
        |
            0 <= p < packages.len() && #[trigger] is_problem_in(listings, packages, p, problem),
    decreases packages.len(),
{
    if packages.len() > 0 {
        let fewer = packages.drop_last();
        let last = packages.len() - 1;
        let before = over_packages(listings, fewer, limits);
        match packages[last].backups {
            Ok(backups) => {
                lemma_backups(
                    before,
                    listings,
                    packages[last].name@,
                    packages[last].version@,
                    backups@,
                    limits,
                    problem,
                );
            },
            Err(reason) => {
                lemma_push_holds(
                    before.found.problems,
                    ProblemView::UnreadableEntry {
                        package: packages[last].entry@,
                        reason: reason@,
                    },
                    problem,
                );
            },
        }
        assert(over_packages(listings, packages, limits) == over_package(
            before,
            listings,
            packages[last],
            limits,
        ));
        a_scan_reports_every_problem(listings, fewer, limits, problem);
        assert forall|p: int| 0 <= p < last implies #[trigger] is_problem_in(
            listings,
            fewer,
            p,
            problem,
        ) == is_problem_in(listings, packages, p, problem) by {
            assert(fewer[p] == packages[p]);
        }
        if exists|p: int|
            0 <= p < last && #[trigger] is_problem_in(listings, fewer, p, problem) {
            let p = choose|p: int|
                0 <= p < last && #[trigger] is_problem_in(listings, fewer, p, problem);
            assert(is_problem_in(listings, packages, p, problem));
        }
        if exists|p: int|
            0 <= p < packages.len() && #[trigger] is_problem_in(listings, packages, p, problem) {
            let p = choose|p: int|
                0 <= p < packages.len() && #[trigger] is_problem_in(
                    listings,
                    packages,
                    p,
                    problem,
                );
            if p < last {
                assert(is_problem_in(listings, fewer, p, problem));
            }
        }
        let here = is_problem_in(listings, packages, last, problem);
        assert(here ==> exists|p: int|
            0 <= p < packages.len() && #[trigger] is_problem_in(listings, packages, p, problem));
    }
}

/// A directory that cannot be listed is reported the first time it is met, with its reason, and has
/// no numbered copies.
pub proof fn an_unlistable_directory_is_reported(
    state: State,
    listings: Seq<Listing>,
    target: Seq<char>,
    name: Seq<char>,
    limits: ScanLimits,
    i: int,
)
    requires
        is_listing(listings, target, i),
        listings[i].names is Err,
        !state.listed.contains(paths::key_of(paths::spec_parent(target))),
        state.found.problems.len() < limits.max_problems,
    ensures
        numbered(state, listings, target, name, limits).0.found.problems
            == state.found.problems.push(
            ProblemView::UnlistableDirectory {
                path: paths::spec_parent(target),
                reason: (listings[i].names->Err_0)@,
            },
        ),
        numbered(state, listings, target, name, limits).0.listed.contains(
            paths::key_of(paths::spec_parent(target)),
        ),
        numbered(state, listings, target, name, limits).1.len() == 0,
{
    lemma_first_listing(listings, target, 0);
}

} // verus!
