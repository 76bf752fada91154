//! Finding the pending files a local database can account for.
//!
//! The scan starts from the declared backup files rather than from the filesystem. Every entry
//! names a path the package manager may have left a second copy of, so testing three suffixes
//! beside it finds every pending file a package declared, and its owner is known for free.
//!
//! # Two ways of looking
//!
//! `.pacnew` and `.pacsave` are tested by name. `.pacsave.N` cannot be tested that way, because `N`
//! is unbounded, so those need the parent directory listed. The listing is bounded and the by-name
//! tests are not: a directory too large to list still yields its two mergeable kinds.

use vstd::prelude::*;

use super::{Pending, PendingKind, PendingView, Problem, ProblemView, Verdict, PACSAVE_SUFFIX};
use crate::hash::MAX_BACKUP_BYTES;
use crate::paths;
use crate::table::TextSet;
use crate::text;

verus! {

broadcast use crate::text::group_lists;

/// Bounds on what one scan may cost.
#[derive(Clone, Copy, Debug, Eq, PartialEq, Structural)]
pub struct ScanLimits {
    /// Largest pair compared. A larger one counts as unreadable.
    pub compare_bytes: u64,
    /// Largest number of directory entries read while looking for numbered `.pacsave` files.
    pub max_dir_entries: usize,
    /// Largest number of pending files returned. The overflow is counted, not dropped in silence.
    pub max_pending: usize,
    /// Largest number of problems returned.
    pub max_problems: usize,
}

impl Default for ScanLimits {
    fn default() -> (r: Self)
        ensures
            r == (ScanLimits {
                compare_bytes: MAX_BACKUP_BYTES,
                max_dir_entries: 100_000,
                max_pending: 100_000,
                max_problems: 100,
            }),
    {
        ScanLimits {
            compare_bytes: MAX_BACKUP_BYTES,
            max_dir_entries: 100_000,
            max_pending: 100_000,
            max_problems: 100,
        }
    }
}

/// What comparing two files of one directory said.
#[derive(Clone, Debug, Eq, PartialEq)]
pub enum Compared {
    /// They hold the same bytes.
    Same,
    /// They do not.
    Different,
    /// One of them is not there.
    Missing,
    /// They could not be compared, and why.
    Failed(String),
}

/// The directory a declared path resolves to, as far as a scan looks at it.
#[derive(Clone, Debug)]
pub struct Place {
    /// The target's name in the directory.
    pub name: String,
    /// The names that are there, among the target's and those of its possible copies.
    pub present: Vec<String>,
    /// What comparing the target with each of its copies said, by the name of the copy.
    pub compared: Vec<(String, Compared)>,
}

/// One declared backup file.
#[derive(Debug)]
pub struct Backup {
    /// Its path.
    pub path: String,
    /// Where it is, or why it cannot be resolved inside the root.
    pub place: Result<Place, String>,
}

/// One installed package.
#[derive(Debug)]
pub struct Installed {
    /// The name of its entry.
    pub entry: String,
    /// Its name.
    pub name: String,
    /// Its version.
    pub version: String,
    /// Its backup files, or why they cannot be read.
    pub backups: Result<Vec<Backup>, String>,
}

/// One directory's listing.
#[derive(Debug)]
pub struct Listing {
    /// The directory.
    pub parent: String,
    /// The names in it, or why it cannot be listed.
    pub names: Result<TextSet, String>,
}

/// Everything one scan found.
#[derive(Debug)]
pub struct Scan {
    pending: Vec<Pending>,
    problems: Vec<Problem>,
    pending_dropped: usize,
    problems_dropped: usize,
}

/// What a [`Scan`] holds.
pub struct ScanView {
    /// The pending files.
    pub pending: Seq<PendingView>,
    /// What went wrong.
    pub problems: Seq<ProblemView>,
    /// How many pending files the bound withheld.
    pub pending_dropped: usize,
    /// How many problems the bound withheld.
    pub problems_dropped: usize,
}

/// The views of a list of pending files.
pub open spec fn pending_views(list: Seq<Pending>) -> Seq<PendingView> {
    Seq::new(list.len(), |i: int| list[i]@)
}

/// The views of a list of problems.
pub open spec fn problem_views(list: Seq<Problem>) -> Seq<ProblemView> {
    Seq::new(list.len(), |i: int| list[i]@)
}

impl View for Scan {
    type V = ScanView;

    closed spec fn view(&self) -> ScanView {
        ScanView {
            pending: pending_views(self.pending@),
            problems: problem_views(self.problems@),
            pending_dropped: self.pending_dropped,
            problems_dropped: self.problems_dropped,
        }
    }
}

/// One more, as far as the type goes.
pub open spec fn one_more(n: usize) -> usize {
    if n == usize::MAX {
        n
    } else {
        (n + 1) as usize
    }
}

impl ScanView {
    /// Nothing found yet.
    pub open spec fn empty() -> ScanView {
        ScanView {
            pending: Seq::empty(),
            problems: Seq::empty(),
            pending_dropped: 0,
            problems_dropped: 0,
        }
    }

    /// With one more pending file, or with it counted as withheld.
    pub open spec fn pushed(self, pending: PendingView, limits: ScanLimits) -> ScanView {
        if self.pending.len() >= limits.max_pending {
            ScanView { pending_dropped: one_more(self.pending_dropped), ..self }
        } else {
            ScanView { pending: self.pending.push(pending), ..self }
        }
    }

    /// With one more problem, or with it counted as withheld.
    pub open spec fn noted(self, problem: ProblemView, limits: ScanLimits) -> ScanView {
        if self.problems.len() >= limits.max_problems {
            ScanView { problems_dropped: one_more(self.problems_dropped), ..self }
        } else {
            ScanView { problems: self.problems.push(problem), ..self }
        }
    }
}

impl Scan {
    /// Nothing found yet.
    fn new() -> (r: Self)
        ensures
            r@ == ScanView::empty(),
    {
        let r = Scan {
            pending: Vec::new(),
            problems: Vec::new(),
            pending_dropped: 0,
            problems_dropped: 0,
        };
        assert(r@.pending =~= Seq::<PendingView>::empty());
        assert(r@.problems =~= Seq::<ProblemView>::empty());
        r
    }

    /// The pending files, in database order, then in the order they are declared.
    pub fn pending(&self) -> (r: &Vec<Pending>)
        ensures
            pending_views(r@) == self@.pending,
    {
        &self.pending
    }

    /// What went wrong, in the order it was met.
    pub fn problems(&self) -> (r: &Vec<Problem>)
        ensures
            problem_views(r@) == self@.problems,
    {
        &self.problems
    }

    /// How many pending files the bound withheld.
    pub fn pending_dropped(&self) -> (r: usize)
        ensures
            r == self@.pending_dropped,
    {
        self.pending_dropped
    }

    /// How many problems the bound withheld.
    pub fn problems_dropped(&self) -> (r: usize)
        ensures
            r == self@.problems_dropped,
    {
        self.problems_dropped
    }

    /// Records a pending file, or counts it as withheld.
    fn push(&mut self, pending: Pending, limits: &ScanLimits)
        ensures
            final(self)@ == old(self)@.pushed(pending@, *limits),
    {
        let ghost was = self@;
        if self.pending.len() >= limits.max_pending {
            if self.pending_dropped < usize::MAX {
                self.pending_dropped = self.pending_dropped + 1;
            }
            return;
        }
        self.pending.push(pending);
        assert(self@.pending =~= was.pending.push(pending@));
    }

    /// Records a problem, or counts it as withheld.
    fn note(&mut self, problem: Problem, limits: &ScanLimits)
        ensures
            final(self)@ == old(self)@.noted(problem@, *limits),
    {
        let ghost was = self@;
        if self.problems.len() >= limits.max_problems {
            if self.problems_dropped < usize::MAX {
                self.problems_dropped = self.problems_dropped + 1;
            }
            return;
        }
        self.problems.push(problem);
        assert(self@.problems =~= was.problems.push(problem@));
    }
}

// ---------------------------------------------------------------------------------------------
// One directory

/// Whether a directory's entries hold a name.
pub open spec fn is_entry(entries: Seq<Option<String>>, name: Seq<char>) -> bool {
    exists|k: int| 0 <= k < entries.len() && text::maybe(#[trigger] entries[k]) == Some(name)
}

/// The names of a directory, given its entries in the order they arrived and, where reading them
/// ended early, why. Too many entries are an error, and it fires while they arrive. An entry
/// whose name is no text is `None`: it counts, and is passed over.
pub fn list_directory(
    entries: &Vec<Option<String>>,
    failed: Option<String>,
    max_entries: usize,
) -> (r: Result<TextSet, String>)
    ensures
        match r {
            Ok(names) => {
                &&& entries@.len() <= max_entries && failed is None
                &&& names.wf()
                &&& forall|name: Seq<char>| #[trigger]
                    names@.contains(name) <==> is_entry(entries@, name) && name != "."@ && name
                        != ".."@
            },
            Err(reason) => if entries@.len() > max_entries {
                reason@ == "it holds more than "@ + text::dec(max_entries as nat) + " entries"@
            } else {
                text::maybe(failed) == Some(reason@)
            },
        },
{
    if entries.len() > max_entries {
        let mut reason = "it holds more than ".to_owned();
        text::push_decimal(&mut reason, max_entries as u64);
        reason.push_str(" entries");
        return Err(reason);
    }
    if let Some(reason) = failed {
        return Err(reason);
    }
    let mut names = TextSet::new();
    let mut i: usize = 0;
    while i < entries.len()
        invariant
            i <= entries.len(),
            names.wf(),
            forall|name: Seq<char>| #[trigger]
                names@.contains(name) <==> (exists|k: int|
                    0 <= k < i && text::maybe(#[trigger] entries@[k]) == Some(name)) && name != "."@
                    && name != ".."@,
        decreases entries.len() - i,
    {
        let ghost here = text::maybe(entries@[i as int]);
        if let Some(entry) = &entries[i] {
            assert(here == Some(entry@));
            if !text::same(entry.as_str(), ".") && !text::same(entry.as_str(), "..") {
                names.insert(entry.clone());
            }
        }
        i += 1;
    }
    Ok(names)
}

/// The number that digits write. It must read back as it is written: `.pacsave.01` reads as `1`,
/// and acting on that would leave two files that claim one rank.
pub open spec fn number_of(digits: Seq<char>) -> Option<u32> {
    match text::unsigned(digits) {
        Some(n) => if 0 <= n <= u32::MAX && text::dec(n as nat) == digits {
            Some(n as u32)
        } else {
            None
        },
        None => None,
    }
}

/// The number that digits write, where it reads back as it is written.
pub fn parse_number(digits: &[char]) -> (r: Option<u32>)
    ensures
        r == number_of(digits@),
{
    match text::parse_unsigned(digits, u32::MAX as u64) {
        Some(n) => {
            let written = text::decimal(n);
            if text::spells(digits, written.as_str()) {
                Some(n as u32)
            } else {
                None
            }
        },
        None => None,
    }
}

/// A list of numbers with one more, in its place.
pub open spec fn placed(numbers: Seq<u32>, n: u32) -> Seq<u32>
    decreases numbers.len(),
{
    if numbers.len() == 0 || numbers.last() <= n {
        numbers.push(n)
    } else {
        placed(numbers.drop_last(), n).push(numbers.last())
    }
}

/// Puts a number in its place.
fn place_number(numbers: &mut Vec<u32>, n: u32)
    ensures
        final(numbers)@ == placed(old(numbers)@, n),
    decreases old(numbers)@.len(),
{
    let len = numbers.len();
    if len == 0 || numbers[len - 1] <= n {
        numbers.push(n);
    } else {
        let ghost was = numbers@;
        if let Some(last) = numbers.pop() {
            assert(numbers@ =~= was.drop_last());
            place_number(numbers, n);
            numbers.push(last);
        }
    }
}

/// What the names of a directory say of numbered copies: the numbers in order, and a problem for
/// each that is not usable.
pub open spec fn numbers_in(
    found: ScanView,
    names: Seq<Seq<char>>,
    target: Seq<char>,
    prefix: Seq<char>,
    limits: ScanLimits,
) -> (ScanView, Seq<u32>)
    decreases names.len(),
{
    if names.len() == 0 {
        (found, Seq::empty())
    } else {
        let (before, numbers) = numbers_in(found, names.drop_last(), target, prefix, limits);
        match text::strip_prefix(names.last(), prefix) {
            None => (before, numbers),
            Some(digits) => match number_of(digits) {
                Some(n) => (before, placed(numbers, n)),
                None => (
                    before.noted(
                        ProblemView::UnusableNumber {
                            path: target + (PACSAVE_SUFFIX@ + "."@ + digits),
                        },
                        limits,
                    ),
                    numbers,
                ),
            },
        }
    }
}

/// The first listing of a directory.
pub open spec fn listing_of(listings: Seq<Listing>, parent: Seq<char>, i: int) -> Option<Listing>
    decreases listings.len() - i,
{
    if i >= listings.len() {
        None
    } else if paths::key_of(listings[i].parent@) == paths::key_of(parent) {
        Some(listings[i])
    } else {
        listing_of(listings, parent, i + 1)
    }
}

/// What a scan holds, and the directories it has listed.
pub struct State {
    /// What was found.
    pub found: ScanView,
    /// The keys of the directories that were listed.
    pub listed: Set<Seq<char>>,
}

/// The numbers of the copies beside a target. A directory that cannot be listed is a problem once,
/// not once per target in it.
pub open spec fn numbered(
    state: State,
    listings: Seq<Listing>,
    target: Seq<char>,
    name: Seq<char>,
    limits: ScanLimits,
) -> (State, Seq<u32>) {
    let parent = paths::spec_parent(target);
    let key = paths::key_of(parent);
    let listed = state.listed.insert(key);
    match listing_of(listings, parent, 0) {
        None => (State { listed, ..state }, Seq::empty()),
        Some(listing) => match listing.names {
            Err(reason) => (
                State {
                    found: if state.listed.contains(key) {
                        state.found
                    } else {
                        state.found.noted(
                            ProblemView::UnlistableDirectory { path: parent, reason: reason@ },
                            limits,
                        )
                    },
                    listed,
                },
                Seq::empty(),
            ),
            Ok(names) => {
                let (found, numbers) = numbers_in(
                    state.found,
                    names@,
                    target,
                    name + (PACSAVE_SUFFIX@ + "."@),
                    limits,
                );
                (State { found, listed }, numbers)
            },
        },
    }
}

/// Finds the numbered copies beside a target.
fn find_numbered(
    found: &mut Scan,
    listed: &mut TextSet,
    listings: &Vec<Listing>,
    target: &str,
    name: &str,
    limits: &ScanLimits,
) -> (r: Vec<u32>)
    ensures
        (state_of(*final(found), *final(listed)), r@) == numbered(
            state_of(*old(found), *old(listed)),
            listings@,
            target@,
            name@,
            *limits,
        ),
{
    let ghost start = state_of(*found, *listed);
    let all = text::chars(target);
    let parent = text::text(paths::parent(all.as_slice()));
    let key = paths::key(parent.as_str());
    let fresh = !listed.contains(key.as_str());
    listed.insert(key);
    proof {
        assert(listed@.to_set() =~= start.listed.insert(paths::key_of(parent@)));
    }
    let mut numbers: Vec<u32> = Vec::new();
    let mut i: usize = 0;
    while i < listings.len()
        invariant
            i <= listings.len(),
            parent@ == paths::spec_parent(target@),
            numbers@.len() == 0,
            fresh == !start.listed.contains(paths::key_of(parent@)),
            found@ == start.found,
            listed@.to_set() == start.listed.insert(paths::key_of(parent@)),
            start == state_of(*old(found), *old(listed)),
            listing_of(listings@, parent@, 0) == listing_of(listings@, parent@, i as int),
        decreases listings.len() - i,
    {
        let listing = &listings[i];
        if text::same(
            paths::key(listing.parent.as_str()).as_str(),
            paths::key(parent.as_str()).as_str(),
        ) {
            match &listing.names {
                Err(reason) => {
                    if fresh {
                        found.note(
                            Problem::UnlistableDirectory {
                                path: parent.clone(),
                                reason: reason.clone(),
                            },
                            limits,
                        );
                    }
                    assert(numbers@ =~= Seq::<u32>::empty());
                },
                Ok(names) => {
                    number_names(found, &mut numbers, names, target, name, limits);
                },
            }
            return numbers;
        }
        i += 1;
    }
    assert(numbers@ =~= Seq::<u32>::empty());
    numbers
}

/// What a scan holds, and the directories it has listed.
pub open spec fn state_of(found: Scan, listed: TextSet) -> State {
    State { found: found@, listed: listed@.to_set() }
}

/// Takes the numbers out of a directory's names.
fn number_names(
    found: &mut Scan,
    numbers: &mut Vec<u32>,
    names: &TextSet,
    target: &str,
    name: &str,
    limits: &ScanLimits,
)
    requires
        old(numbers)@.len() == 0,
    ensures
        (final(found)@, final(numbers)@) == numbers_in(
            old(found)@,
            names@,
            target@,
            name@ + (PACSAVE_SUFFIX@ + "."@),
            *limits,
        ),
{
    let ghost start = found@;
    let mut prefix = name.to_owned();
    prefix.push_str(PACSAVE_SUFFIX);
    prefix.push_str(".");
    let ghost wanted = name@ + (PACSAVE_SUFFIX@ + "."@);
    assert(prefix@ =~= wanted);
    let mut i: usize = 0;
    assert(numbers@ =~= Seq::<u32>::empty());
    assert(names@.take(0) =~= Seq::<Seq<char>>::empty());
    while i < names.len()
        invariant
            i <= names@.len(),
            prefix@ == wanted,
            (found@, numbers@) == numbers_in(
                start,
                names@.take(i as int),
                target@,
                wanted,
                *limits,
            ),
        decreases names@.len() - i,
    {
        let entry = text::chars(names.get(i));
        proof {
            let so_far = names@.take(i + 1);
            assert(so_far.drop_last() =~= names@.take(i as int));
            assert(so_far.last() == entry@);
        }
        if let Some(digits) = text::after_text(entry.as_slice(), prefix.as_str()) {
            match parse_number(digits) {
                Some(n) => {
                    place_number(numbers, n);
                },
                None => {
                    let mut path = target.to_owned();
                    path.push_str(PACSAVE_SUFFIX);
                    path.push_str(".");
                    path.push_str(text::text(digits).as_str());
                    assert(path@ =~= target@ + (PACSAVE_SUFFIX@ + "."@ + digits@));
                    found.note(Problem::UnusableNumber { path }, limits);
                },
            }
        }
        i += 1;
    }
    assert(names@.take(i as int) =~= names@);
}

/// The names that copies of a target may have, among the first entries of its directory: the two
/// mergeable ones, and every entry that carries a number or what stands in its place.
pub open spec fn copies_in(name: Seq<char>, entries: Seq<Seq<char>>) -> Seq<Seq<char>>
    decreases entries.len(),
{
    if entries.len() == 0 {
        seq![
            name + PendingKind::Pacnew.spec_suffix(),
            name + PendingKind::Pacsave.spec_suffix(),
        ]
    } else {
        let before = copies_in(name, entries.drop_last());
        if text::starts_with(entries.last(), name + (PACSAVE_SUFFIX@ + "."@)) {
            before.push(entries.last())
        } else {
            before
        }
    }
}

/// The names that copies of a target may have: these are what a [`Place`] has to say something of.
pub fn copies_of(name: &str, entries: &Vec<String>) -> (r: Vec<String>)
    ensures
        text::texts(r@) == copies_in(name@, text::texts(entries@)),
{
    let mut out: Vec<String> = Vec::new();
    out.push(suffixed(name, PendingKind::Pacnew.suffix().as_str()));
    out.push(suffixed(name, PendingKind::Pacsave.suffix().as_str()));
    let mut prefix = name.to_owned();
    prefix.push_str(PACSAVE_SUFFIX);
    prefix.push_str(".");
    let ghost all = text::texts(entries@);
    proof {
        assert(prefix@ =~= name@ + (PACSAVE_SUFFIX@ + "."@));
        assert(all.take(0) =~= Seq::<Seq<char>>::empty());
        assert(text::texts(out@) =~= copies_in(name@, all.take(0)));
    }
    let mut i: usize = 0;
    while i < entries.len()
        invariant
            i <= entries.len(),
            all == text::texts(entries@),
            prefix@ == name@ + (PACSAVE_SUFFIX@ + "."@),
            text::texts(out@) == copies_in(name@, all.take(i as int)),
        decreases entries.len() - i,
    {
        let entry = text::chars(entries[i].as_str());
        proof {
            let so_far = all.take(i + 1);
            assert(so_far.drop_last() =~= all.take(i as int));
            assert(so_far.last() == entry@);
        }
        if text::after_text(entry.as_slice(), prefix.as_str()).is_some() {
            out.push(entries[i].clone());
        }
        i += 1;
    }
    assert(all.take(i as int) =~= all);
    out
}

// ---------------------------------------------------------------------------------------------
// One target

/// What comparing a target with one of its copies said. A copy without an answer has vanished.
pub open spec fn answer(compared: Seq<(String, Compared)>, name: Seq<char>, i: int) -> Compared
    decreases compared.len() - i,
{
    if i >= compared.len() {
        Compared::Missing
    } else if compared[i].0@ == name {
        compared[i].1
    } else {
        answer(compared, name, i + 1)
    }
}

/// How a copy compares with its target, and why it could not be compared.
pub open spec fn verdict_of(place: Place, copy: Seq<char>) -> (Verdict, Option<Seq<char>>) {
    if text::texts(place.present@).contains(place.name@) {
        match answer(place.compared@, copy, 0) {
            Compared::Same => (Verdict::Identical, None),
            Compared::Different => (Verdict::Differs, None),
            Compared::Missing => (Verdict::TargetMissing, None),
            Compared::Failed(reason) => (Verdict::Unreadable, Some(reason@)),
        }
    } else {
        (Verdict::TargetMissing, None)
    }
}

/// A scan with the record of one copy.
pub open spec fn described(
    found: ScanView,
    package: Seq<char>,
    version: Seq<char>,
    target: Seq<char>,
    place: Place,
    kind: PendingKind,
    limits: ScanLimits,
) -> ScanView {
    let pacfile = target + kind.spec_suffix();
    let (verdict, reason) = verdict_of(place, place.name@ + kind.spec_suffix());
    let noted = match reason {
        Some(reason) => found.noted(ProblemView::Uncomparable { path: pacfile, reason }, limits),
        None => found,
    };
    noted.pushed(
        PendingView {
            pacfile,
            target,
            kind,
            package,
            installed_version: version,
            verdict,
        },
        limits,
    )
}

/// A scan with the record of one copy, where it is there.
pub open spec fn tested(
    found: ScanView,
    package: Seq<char>,
    version: Seq<char>,
    target: Seq<char>,
    place: Place,
    kind: PendingKind,
    limits: ScanLimits,
) -> ScanView {
    if text::texts(place.present@).contains(place.name@ + kind.spec_suffix()) {
        described(found, package, version, target, place, kind, limits)
    } else {
        found
    }
}

/// A scan with the records of numbered copies.
pub open spec fn described_all(
    found: ScanView,
    package: Seq<char>,
    version: Seq<char>,
    target: Seq<char>,
    place: Place,
    numbers: Seq<u32>,
    limits: ScanLimits,
) -> ScanView
    decreases numbers.len(),
{
    if numbers.len() == 0 {
        found
    } else {
        described(
            described_all(found, package, version, target, place, numbers.drop_last(), limits),
            package,
            version,
            target,
            place,
            PendingKind::NumberedPacsave(numbers.last()),
            limits,
        )
    }
}

/// A scan with every copy that sits beside a target.
pub open spec fn collected(
    state: State,
    listings: Seq<Listing>,
    package: Seq<char>,
    version: Seq<char>,
    target: Seq<char>,
    place: Place,
    limits: ScanLimits,
) -> State {
    let first = tested(
        state.found,
        package,
        version,
        target,
        place,
        PendingKind::Pacnew,
        limits,
    );
    let second = tested(first, package, version, target, place, PendingKind::Pacsave, limits);
    let (after, numbers) = numbered(
        State { found: second, ..state },
        listings,
        target,
        place.name@,
        limits,
    );
    State {
        found: described_all(after.found, package, version, target, place, numbers, limits),
        ..after
    }
}

/// Whether a list holds a text.
fn is_present(list: &Vec<String>, name: &str) -> (r: bool)
    ensures
        r == text::texts(list@).contains(name@),
{
    let mut i: usize = 0;
    while i < list.len()
        invariant
            i <= list.len(),
            forall|k: int| 0 <= k < i ==> (#[trigger] list@[k])@ != name@,
        decreases list.len() - i,
    {
        if text::same(list[i].as_str(), name) {
            assert(text::texts(list@)[i as int] == name@);
            return true;
        }
        i += 1;
    }
    assert forall|k: int| 0 <= k < text::texts(list@).len() implies text::texts(list@)[k]
        != name@ by {
        assert(list@[k]@ != name@);
    }
    false
}

/// How a copy compares with its target, and why it could not be compared.
fn judge(place: &Place, copy: &str) -> (r: (Verdict, Option<String>))
    ensures
        (r.0, text::maybe(r.1)) == verdict_of(*place, copy@),
{
    if !is_present(&place.present, place.name.as_str()) {
        return (Verdict::TargetMissing, None);
    }
    let mut i: usize = 0;
    while i < place.compared.len()
        invariant
            i <= place.compared.len(),
            text::texts(place.present@).contains(place.name@),
            answer(place.compared@, copy@, 0) == answer(place.compared@, copy@, i as int),
        decreases place.compared.len() - i,
    {
        let entry = &place.compared[i];
        if text::same(entry.0.as_str(), copy) {
            return match &entry.1 {
                Compared::Same => (Verdict::Identical, None),
                Compared::Different => (Verdict::Differs, None),
                Compared::Missing => (Verdict::TargetMissing, None),
                Compared::Failed(reason) => (Verdict::Unreadable, Some(reason.clone())),
            };
        }
        i += 1;
    }
    (Verdict::TargetMissing, None)
}

/// A name or path with a suffix.
fn suffixed(name: &str, suffix: &str) -> (r: String)
    ensures
        r@ == name@ + suffix@,
{
    let mut out = name.to_owned();
    out.push_str(suffix);
    out
}

/// Builds the record for one copy, comparing it with its target.
fn describe(
    found: &mut Scan,
    installed: &Installed,
    target: &str,
    place: &Place,
    kind: PendingKind,
    limits: &ScanLimits,
)
    ensures
        final(found)@ == described(
            old(found)@,
            installed.name@,
            installed.version@,
            target@,
            *place,
            kind,
            *limits,
        ),
{
    let suffix = kind.suffix();
    let copy = suffixed(place.name.as_str(), suffix.as_str());
    let pacfile = suffixed(target, suffix.as_str());
    let (verdict, reason) = judge(place, copy.as_str());
    if let Some(reason) = reason {
        found.note(Problem::Uncomparable { path: pacfile.clone(), reason }, limits);
    }
    found.push(
        Pending {
            pacfile,
            target: target.to_owned(),
            kind,
            package: installed.name.clone(),
            installed_version: installed.version.clone(),
            verdict,
        },
        limits,
    );
}

/// Records one copy, where it is there.
fn test(
    found: &mut Scan,
    installed: &Installed,
    target: &str,
    place: &Place,
    kind: PendingKind,
    limits: &ScanLimits,
)
    ensures
        final(found)@ == tested(
            old(found)@,
            installed.name@,
            installed.version@,
            target@,
            *place,
            kind,
            *limits,
        ),
{
    let copy = suffixed(place.name.as_str(), kind.suffix().as_str());
    if is_present(&place.present, copy.as_str()) {
        describe(found, installed, target, place, kind, limits);
    }
}

/// Records every copy that sits beside a target.
fn collect(
    found: &mut Scan,
    listed: &mut TextSet,
    listings: &Vec<Listing>,
    installed: &Installed,
    target: &str,
    place: &Place,
    limits: &ScanLimits,
)
    ensures
        state_of(*final(found), *final(listed)) == collected(
            state_of(*old(found), *old(listed)),
            listings@,
            installed.name@,
            installed.version@,
            target@,
            *place,
            *limits,
        ),
{
    test(found, installed, target, place, PendingKind::Pacnew, limits);
    test(found, installed, target, place, PendingKind::Pacsave, limits);
    let numbers = find_numbered(found, listed, listings, target, place.name.as_str(), limits);
    let ghost start = found@;
    let mut i: usize = 0;
    assert(numbers@.take(0) =~= Seq::<u32>::empty());
    while i < numbers.len()
        invariant
            i <= numbers.len(),
            found@ == described_all(
                start,
                installed.name@,
                installed.version@,
                target@,
                *place,
                numbers@.take(i as int),
                *limits,
            ),
        decreases numbers.len() - i,
    {
        proof {
            let so_far = numbers@.take(i + 1);
            assert(so_far.drop_last() =~= numbers@.take(i as int));
        }
        describe(
            found,
            installed,
            target,
            place,
            PendingKind::NumberedPacsave(numbers[i]),
            limits,
        );
        i += 1;
    }
    assert(numbers@.take(i as int) =~= numbers@);
}

// ---------------------------------------------------------------------------------------------
// The scan

/// A scan with every copy of a package's first backup files.
pub open spec fn over_backups(
    state: State,
    listings: Seq<Listing>,
    package: Seq<char>,
    version: Seq<char>,
    backups: Seq<Backup>,
    limits: ScanLimits,
) -> State
    decreases backups.len(),
{
    if backups.len() == 0 {
        state
    } else {
        let before = over_backups(
            state,
            listings,
            package,
            version,
            backups.drop_last(),
            limits,
        );
        let last = backups.last();
        match last.place {
            Err(reason) => State {
                found: before.found.noted(
                    ProblemView::OutsideRoot { path: last.path@, reason: reason@ },
                    limits,
                ),
                ..before
            },
            Ok(place) => collected(
                before,
                listings,
                package,
                version,
                last.path@,
                place,
                limits,
            ),
        }
    }
}

/// A scan with every copy of one package.
pub open spec fn over_package(
    state: State,
    listings: Seq<Listing>,
    installed: Installed,
    limits: ScanLimits,
) -> State {
    match installed.backups {
        Err(reason) => State {
            found: state.found.noted(
                ProblemView::UnreadableEntry { package: installed.entry@, reason: reason@ },
                limits,
            ),
            ..state
        },
        Ok(backups) => over_backups(
            state,
            listings,
            installed.name@,
            installed.version@,
            backups@,
            limits,
        ),
    }
}

/// A scan of the first packages.
pub open spec fn over_packages(
    listings: Seq<Listing>,
    packages: Seq<Installed>,
    limits: ScanLimits,
) -> State
    decreases packages.len(),
{
    if packages.len() == 0 {
        State { found: ScanView::empty(), listed: Set::empty() }
    } else {
        over_package(
            over_packages(listings, packages.drop_last(), limits),
            listings,
            packages.last(),
            limits,
        )
    }
}

/// Records every copy of one package.
fn scan_package(
    found: &mut Scan,
    listed: &mut TextSet,
    listings: &Vec<Listing>,
    installed: &Installed,
    limits: &ScanLimits,
)
    ensures
        state_of(*final(found), *final(listed)) == over_package(
            state_of(*old(found), *old(listed)),
            listings@,
            *installed,
            *limits,
        ),
{
    match &installed.backups {
        Err(reason) => {
            found.note(
                Problem::UnreadableEntry {
                    package: installed.entry.clone(),
                    reason: reason.clone(),
                },
                limits,
            );
        },
        Ok(backups) => {
            let ghost start = state_of(*found, *listed);
            let mut i: usize = 0;
            assert(backups@.take(0) =~= Seq::<Backup>::empty());
            while i < backups.len()
                invariant
                    i <= backups.len(),
                    state_of(*found, *listed) == over_backups(
                        start,
                        listings@,
                        installed.name@,
                        installed.version@,
                        backups@.take(i as int),
                        *limits,
                    ),
                decreases backups.len() - i,
            {
                let backup = &backups[i];
                proof {
                    let so_far = backups@.take(i + 1);
                    assert(so_far.drop_last() =~= backups@.take(i as int));
                    assert(so_far.last() == *backup);
                }
                match &backup.place {
                    Err(reason) => {
                        found.note(
                            Problem::OutsideRoot {
                                path: backup.path.clone(),
                                reason: reason.clone(),
                            },
                            limits,
                        );
                    },
                    Ok(place) => {
                        collect(
                            found,
                            listed,
                            listings,
                            installed,
                            backup.path.as_str(),
                            place,
                            limits,
                        );
                    },
                }
                i += 1;
            }
            assert(backups@.take(i as int) =~= backups@);
        },
    }
}

/// Finds every pending file the local database can account for.
///
/// This returns rather than fails. One unreadable package must not cost the rest of the scan, so
/// what went wrong comes back on [`Scan::problems`].
pub fn scan(packages: &Vec<Installed>, listings: &Vec<Listing>, limits: &ScanLimits) -> (r: Scan)
    ensures
        r@ == over_packages(listings@, packages@, *limits).found,
{
    let mut found = Scan::new();
    let mut listed = TextSet::new();
    let mut i: usize = 0;
    assert(packages@.take(0) =~= Seq::<Installed>::empty());
    assert(listed@.to_set() =~= Set::<Seq<char>>::empty());
    while i < packages.len()
        invariant
            i <= packages.len(),
            state_of(found, listed) == over_packages(
                listings@,
                packages@.take(i as int),
                *limits,
            ),
        decreases packages.len() - i,
    {
        proof {
            let so_far = packages@.take(i + 1);
            assert(so_far.drop_last() =~= packages@.take(i as int));
        }
        scan_package(&mut found, &mut listed, listings, &packages[i], limits);
        i += 1;
    }
    assert(packages@.take(i as int) =~= packages@);
    found
}

// ---------------------------------------------------------------------------------------------
// Laws

/// Every number reads back from the suffix that carries it, and only from there.
pub proof fn a_number_reads_back(n: u32, digits: Seq<char>)
    ensures
        number_of(text::dec(n as nat)) == Some(n),
        number_of(digits) == Some(n) ==> digits == text::dec(n as nat),
{
    text::lemma_unsigned_of_dec(n as nat);
}

/// A bound withholds, it does not hide: each pending file is either returned or counted.
pub proof fn nothing_is_dropped_in_silence(
    found: ScanView,
    pending: PendingView,
    problem: ProblemView,
    limits: ScanLimits,
)
    requires
        found.pending_dropped < usize::MAX,
        found.problems_dropped < usize::MAX,
    ensures
        found.pushed(pending, limits).pending.len() + found.pushed(pending, limits).pending_dropped
            == found.pending.len() + found.pending_dropped + 1,
        found.noted(problem, limits).problems.len() + found.noted(problem, limits).problems_dropped
            == found.problems.len() + found.problems_dropped + 1,
{
}

/// Whether the numbers of a list ascend.
pub open spec fn ascend(numbers: Seq<u32>) -> bool {
    forall|i: int, j: int| 0 <= i < j < numbers.len() ==> numbers[i] <= numbers[j]
}

/// Putting a number in its place keeps a list in order.
proof fn lemma_placed(numbers: Seq<u32>, n: u32)
    requires
        ascend(numbers),
    ensures
        ascend(placed(numbers, n)),
        placed(numbers, n).len() == numbers.len() + 1,
        forall|i: int|
            0 <= i < placed(numbers, n).len() ==> #[trigger] placed(numbers, n)[i] == n
                || numbers.contains(placed(numbers, n)[i]),
    decreases numbers.len(),
{
    if numbers.len() > 0 && numbers.last() > n {
        let fewer = numbers.drop_last();
        let inner = placed(fewer, n);
        lemma_placed(fewer, n);
        assert forall|i: int| 0 <= i < inner.len() implies inner[i] <= numbers.last() by {
            if inner[i] != n {
                let k = choose|k: int| 0 <= k < fewer.len() && fewer[k] == inner[i];
                assert(numbers[k] == inner[i]);
            }
        }
        let all = placed(numbers, n);
        assert forall|i: int| 0 <= i < all.len() implies #[trigger] all[i] == n
            || numbers.contains(all[i]) by {
            if i < inner.len() {
                if inner[i] != n {
                    let k = choose|k: int| 0 <= k < fewer.len() && fewer[k] == inner[i];
                    assert(numbers[k] == all[i]);
                }
            } else {
                assert(numbers[numbers.len() - 1] == all[i]);
            }
        }
    } else {
        let all = placed(numbers, n);
        assert forall|i: int| 0 <= i < all.len() implies #[trigger] all[i] == n
            || numbers.contains(all[i]) by {
            if i < numbers.len() {
                assert(numbers[i] == all[i]);
            }
        }
    }
}

/// Numbered copies are met in the order of their numbers.
pub proof fn numbered_copies_ascend(
    found: ScanView,
    names: Seq<Seq<char>>,
    target: Seq<char>,
    prefix: Seq<char>,
    limits: ScanLimits,
)
    ensures
        ascend(numbers_in(found, names, target, prefix, limits).1),
    decreases names.len(),
{
    if names.len() > 0 {
        numbered_copies_ascend(found, names.drop_last(), target, prefix, limits);
        if let Some(digits) = text::strip_prefix(names.last(), prefix) {
            if let Some(n) = number_of(digits) {
                lemma_placed(
                    numbers_in(found, names.drop_last(), target, prefix, limits).1,
                    n,
                );
            }
        }
    }
}

/// A directory that cannot be listed is a problem once.
pub proof fn an_unlistable_directory_is_noted_once(
    state: State,
    listings: Seq<Listing>,
    target: Seq<char>,
    name: Seq<char>,
    other: Seq<char>,
    limits: ScanLimits,
)
    requires
        listing_of(listings, paths::spec_parent(target), 0) matches Some(listing)
            && listing.names is Err,
    ensures
        ({
            let (after, _) = numbered(state, listings, target, name, limits);
            numbered(after, listings, target, other, limits).0 == after
        }),
{
    let (after, _) = numbered(state, listings, target, name, limits);
    let again = numbered(after, listings, target, other, limits).0;
    assert(again.listed =~= after.listed);
}

/// The names of a directory change nothing of what is pending.
proof fn lemma_numbers_keep(
    found: ScanView,
    names: Seq<Seq<char>>,
    target: Seq<char>,
    prefix: Seq<char>,
    limits: ScanLimits,
)
    ensures
        numbers_in(found, names, target, prefix, limits).0.pending == found.pending,
    decreases names.len(),
{
    if names.len() > 0 {
        lemma_numbers_keep(found, names.drop_last(), target, prefix, limits);
    }
}

/// Records of copies are only ever added.
proof fn lemma_described_extends(
    found: ScanView,
    package: Seq<char>,
    version: Seq<char>,
    target: Seq<char>,
    place: Place,
    numbers: Seq<u32>,
    limits: ScanLimits,
)
    ensures
        found.pending.is_prefix_of(
            described_all(found, package, version, target, place, numbers, limits).pending,
        ),
    decreases numbers.len(),
{
    if numbers.len() > 0 {
        lemma_described_extends(
            found,
            package,
            version,
            target,
            place,
            numbers.drop_last(),
            limits,
        );
        let before = described_all(
            found,
            package,
            version,
            target,
            place,
            numbers.drop_last(),
            limits,
        );
        let after = described_all(found, package, version, target, place, numbers, limits);
        assert(after.pending.len() >= before.pending.len());
        assert(after.pending.take(before.pending.len() as int) =~= before.pending);
        assert(after.pending.take(found.pending.len() as int) =~= before.pending.take(
            found.pending.len() as int,
        ));
        assert(found.pending =~= before.pending.subrange(0, found.pending.len() as int));
        assert(found.pending =~= after.pending.subrange(0, found.pending.len() as int));
    } else {
        assert(found.pending =~= found.pending.subrange(0, found.pending.len() as int));
    }
}

/// A directory that cannot be listed, or that is too large to be, still yields its mergeable
/// copies: what is there is pending, whatever the listing says.
pub proof fn a_listing_never_hides_a_mergeable_copy(
    state: State,
    listings: Seq<Listing>,
    package: Seq<char>,
    version: Seq<char>,
    target: Seq<char>,
    place: Place,
    limits: ScanLimits,
)
    requires
        text::texts(place.present@).contains(place.name@ + PendingKind::Pacnew.spec_suffix()),
        state.found.pending.len() < limits.max_pending,
    ensures
        ({
            let pending = collected(
                state,
                listings,
                package,
                version,
                target,
                place,
                limits,
            ).found.pending;
            let at = state.found.pending.len() as int;
            &&& at < pending.len()
            &&& pending[at].kind == PendingKind::Pacnew
            &&& pending[at].target == target
        }),
{
    let first = tested(
        state.found,
        package,
        version,
        target,
        place,
        PendingKind::Pacnew,
        limits,
    );
    let second = tested(first, package, version, target, place, PendingKind::Pacsave, limits);
    let before = State { found: second, ..state };
    let (after, numbers) = numbered(before, listings, target, place.name@, limits);
    if let Some(listing) = listing_of(listings, paths::spec_parent(target), 0) {
        if let Ok(names) = listing.names {
            lemma_numbers_keep(
                second,
                names@,
                target,
                place.name@ + (PACSAVE_SUFFIX@ + "."@),
                limits,
            );
        }
    }
    assert(after.found.pending == second.pending);
    lemma_described_extends(after.found, package, version, target, place, numbers, limits);
    let whole = described_all(after.found, package, version, target, place, numbers, limits);
    let at = state.found.pending.len() as int;
    assert(first.pending.len() == at + 1);
    assert(second.pending[at] == first.pending[at]);
    assert(whole.pending.subrange(0, second.pending.len() as int)[at] == whole.pending[at]);
}

/// Whether `small` is what a scan that found `large` would have found under a smaller bound on
/// pending files: a prefix of them, with the others counted, and the same problems.
pub open spec fn withheld(
    small: ScanView,
    large: ScanView,
    fewer: ScanLimits,
    more: ScanLimits,
) -> bool {
    &&& small.problems == large.problems
    &&& small.problems_dropped == large.problems_dropped
    &&& small.pending.len() <= fewer.max_pending
    &&& large.pending.len() <= more.max_pending
    &&& small.pending.len() <= large.pending.len()
    &&& small.pending == large.pending.take(small.pending.len() as int)
    &&& small.pending.len() < fewer.max_pending ==> small.pending.len() == large.pending.len()
        && small.pending_dropped == 0
    &&& large.pending.len() < more.max_pending ==> large.pending_dropped == 0
    &&& small.pending_dropped == usize::MAX || small.pending.len() + small.pending_dropped
        == large.pending.len() + large.pending_dropped
}

/// Whether two limits differ in the bound on pending files alone, and which is the smaller.
pub open spec fn bounds_fewer(fewer: ScanLimits, more: ScanLimits) -> bool {
    &&& fewer.max_pending <= more.max_pending
    &&& fewer == (ScanLimits { max_pending: fewer.max_pending, ..more })
}

proof fn lemma_withheld_pushed(
    small: ScanView,
    large: ScanView,
    pending: PendingView,
    fewer: ScanLimits,
    more: ScanLimits,
)
    requires
        bounds_fewer(fewer, more),
        withheld(small, large, fewer, more),
    ensures
        withheld(small.pushed(pending, fewer), large.pushed(pending, more), fewer, more),
{
    let a = small.pushed(pending, fewer);
    let b = large.pushed(pending, more);
    if small.pending.len() < fewer.max_pending {
        assert(small.pending =~= large.pending);
        assert(b.pending.take(a.pending.len() as int) =~= a.pending);
    } else {
        assert(b.pending.take(a.pending.len() as int) =~= large.pending.take(
            a.pending.len() as int,
        ));
    }
}

proof fn lemma_withheld_described(
    small: ScanView,
    large: ScanView,
    package: Seq<char>,
    version: Seq<char>,
    target: Seq<char>,
    place: Place,
    kind: PendingKind,
    fewer: ScanLimits,
    more: ScanLimits,
)
    requires
        bounds_fewer(fewer, more),
        withheld(small, large, fewer, more),
    ensures
        withheld(
            described(small, package, version, target, place, kind, fewer),
            described(large, package, version, target, place, kind, more),
            fewer,
            more,
        ),
{
    let pacfile = target + kind.spec_suffix();
    let (verdict, reason) = verdict_of(place, place.name@ + kind.spec_suffix());
    let pending = PendingView {
        pacfile,
        target,
        kind,
        package,
        installed_version: version,
        verdict,
    };
    match reason {
        Some(reason) => {
            let problem = ProblemView::Uncomparable { path: pacfile, reason };
            lemma_withheld_pushed(
                small.noted(problem, fewer),
                large.noted(problem, more),
                pending,
                fewer,
                more,
            );
        },
        None => lemma_withheld_pushed(small, large, pending, fewer, more),
    }
}

proof fn lemma_withheld_described_all(
    small: ScanView,
    large: ScanView,
    package: Seq<char>,
    version: Seq<char>,
    target: Seq<char>,
    place: Place,
    numbers: Seq<u32>,
    fewer: ScanLimits,
    more: ScanLimits,
)
    requires
        bounds_fewer(fewer, more),
        withheld(small, large, fewer, more),
    ensures
        withheld(
            described_all(small, package, version, target, place, numbers, fewer),
            described_all(large, package, version, target, place, numbers, more),
            fewer,
            more,
        ),
    decreases numbers.len(),
{
    if numbers.len() > 0 {
        let rest = numbers.drop_last();
        lemma_withheld_described_all(
            small,
            large,
            package,
            version,
            target,
            place,
            rest,
            fewer,
            more,
        );
        lemma_withheld_described(
            described_all(small, package, version, target, place, rest, fewer),
            described_all(large, package, version, target, place, rest, more),
            package,
            version,
            target,
            place,
            PendingKind::NumberedPacsave(numbers.last()),
            fewer,
            more,
        );
    }
}

proof fn lemma_withheld_numbers(
    small: ScanView,
    large: ScanView,
    names: Seq<Seq<char>>,
    target: Seq<char>,
    prefix: Seq<char>,
    fewer: ScanLimits,
    more: ScanLimits,
)
    requires
        bounds_fewer(fewer, more),
        withheld(small, large, fewer, more),
    ensures
        withheld(
            numbers_in(small, names, target, prefix, fewer).0,
            numbers_in(large, names, target, prefix, more).0,
            fewer,
            more,
        ),
        numbers_in(small, names, target, prefix, fewer).1 == numbers_in(
            large,
            names,
            target,
            prefix,
            more,
        ).1,
    decreases names.len(),
{
    if names.len() > 0 {
        lemma_withheld_numbers(small, large, names.drop_last(), target, prefix, fewer, more);
    }
}

proof fn lemma_withheld_collected(
    small: State,
    large: State,
    listings: Seq<Listing>,
    package: Seq<char>,
    version: Seq<char>,
    target: Seq<char>,
    place: Place,
    fewer: ScanLimits,
    more: ScanLimits,
)
    requires
        bounds_fewer(fewer, more),
        withheld(small.found, large.found, fewer, more),
        small.listed == large.listed,
    ensures
        ({
            let a = collected(small, listings, package, version, target, place, fewer);
            let b = collected(large, listings, package, version, target, place, more);
            withheld(a.found, b.found, fewer, more) && a.listed == b.listed
        }),
{
    let new = PendingKind::Pacnew;
    let old = PendingKind::Pacsave;
    lemma_withheld_described(
        small.found,
        large.found,
        package,
        version,
        target,
        place,
        new,
        fewer,
        more,
    );
    let a1 = tested(small.found, package, version, target, place, new, fewer);
    let b1 = tested(large.found, package, version, target, place, new, more);
    lemma_withheld_described(a1, b1, package, version, target, place, old, fewer, more);
    let a2 = tested(a1, package, version, target, place, old, fewer);
    let b2 = tested(b1, package, version, target, place, old, more);
    let parent = paths::spec_parent(target);
    if let Some(listing) = listing_of(listings, parent, 0) {
        if let Ok(names) = listing.names {
            lemma_withheld_numbers(
                a2,
                b2,
                names@,
                target,
                place.name@ + (PACSAVE_SUFFIX@ + "."@),
                fewer,
                more,
            );
        }
    }
    let (a3, numbers) = numbered(
        State { found: a2, ..small },
        listings,
        target,
        place.name@,
        fewer,
    );
    let (b3, same) = numbered(State { found: b2, ..large }, listings, target, place.name@, more);
    assert(numbers == same);
    lemma_withheld_described_all(
        a3.found,
        b3.found,
        package,
        version,
        target,
        place,
        numbers,
        fewer,
        more,
    );
}

proof fn lemma_withheld_backups(
    small: State,
    large: State,
    listings: Seq<Listing>,
    package: Seq<char>,
    version: Seq<char>,
    backups: Seq<Backup>,
    fewer: ScanLimits,
    more: ScanLimits,
)
    requires
        bounds_fewer(fewer, more),
        withheld(small.found, large.found, fewer, more),
        small.listed == large.listed,
    ensures
        ({
            let a = over_backups(small, listings, package, version, backups, fewer);
            let b = over_backups(large, listings, package, version, backups, more);
            withheld(a.found, b.found, fewer, more) && a.listed == b.listed
        }),
    decreases backups.len(),
{
    if backups.len() > 0 {
        let rest = backups.drop_last();
        lemma_withheld_backups(small, large, listings, package, version, rest, fewer, more);
        if let Ok(place) = backups.last().place {
            lemma_withheld_collected(
                over_backups(small, listings, package, version, rest, fewer),
                over_backups(large, listings, package, version, rest, more),
                listings,
                package,
                version,
                backups.last().path@,
                place,
                fewer,
                more,
            );
        }
    }
}

proof fn lemma_withheld_packages(
    listings: Seq<Listing>,
    packages: Seq<Installed>,
    fewer: ScanLimits,
    more: ScanLimits,
)
    requires
        bounds_fewer(fewer, more),
    ensures
        ({
            let a = over_packages(listings, packages, fewer);
            let b = over_packages(listings, packages, more);
            withheld(a.found, b.found, fewer, more) && a.listed == b.listed
        }),
    decreases packages.len(),
{
    if packages.len() > 0 {
        let rest = packages.drop_last();
        let last = packages.last();
        lemma_withheld_packages(listings, rest, fewer, more);
        if let Ok(backups) = last.backups {
            lemma_withheld_backups(
                over_packages(listings, rest, fewer),
                over_packages(listings, rest, more),
                listings,
                last.name@,
                last.version@,
                backups@,
                fewer,
                more,
            );
        }
    } else {
        let none = ScanView::empty();
        assert(none.pending.take(0) =~= none.pending);
    }
}

/// The bound on pending files withholds and counts, and never loses: under a smaller bound a scan
/// returns the first of what it returns under a larger one, returned and withheld files are as
/// many in all, and the problems are the same.
///
/// The number of withheld files is exact as long as the type can hold it.
pub proof fn a_smaller_bound_withholds_and_counts(
    listings: Seq<Listing>,
    packages: Seq<Installed>,
    fewer: ScanLimits,
    more: ScanLimits,
)
    requires
        bounds_fewer(fewer, more),
    ensures
        ({
            let small = over_packages(listings, packages, fewer).found;
            let large = over_packages(listings, packages, more).found;
            &&& small.pending.len() <= fewer.max_pending
            &&& small.pending.is_prefix_of(large.pending)
            &&& small.pending_dropped < usize::MAX ==> small.pending.len() + small.pending_dropped
                == large.pending.len() + large.pending_dropped
            &&& small.problems == large.problems
            &&& small.problems_dropped == large.problems_dropped
        }),
{
    lemma_withheld_packages(listings, packages, fewer, more);
}

} // verus!
