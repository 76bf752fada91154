//! Which paths two packages of one transaction both ship.
//!
//! The question is put to every pair of packages, and the answer is a list in the order the pairs
//! are in: by the first package, then by the second, then by path. Asking it pair by pair costs
//! the square of the number of packages, and almost every path belongs to one package. So every
//! entry of every package is sorted by the place it names, and only a place that two packages
//! share is expanded into pairs.

use vstd::prelude::*;

use crate::conflict::filelist;
use crate::conflict::Target;
use crate::order;
use crate::order::Ordered;
use crate::table;
use crate::text;

verus! {

broadcast use {crate::text::group_lists, vstd::seq_lib::group_to_multiset_ensures};

/// One path that two packages ship: the package, the other package, the path as the first spells
/// it.
pub type Pair = (int, int, Seq<char>);

/// One path that two packages ship.
#[derive(Clone, Copy, Debug)]
pub struct Collision<'a> {
    /// The package whose spelling `path` is.
    pub first: usize,
    /// The later package that ships it too.
    pub second: usize,
    /// The path.
    pub path: &'a str,
}

impl<'a> View for Collision<'a> {
    type V = Pair;

    open spec fn view(&self) -> Pair {
        (self.first as int, self.second as int, self.path@)
    }
}

/// The views of a list of collisions.
pub open spec fn collision_views(list: Seq<Collision>) -> Seq<Pair> {
    list.map_values(|c: Collision| c@)
}

/// The paths of package `i` that collide with package `j`, in the order of the list.
pub open spec fn against(files: Seq<Seq<Seq<char>>>, i: int, j: int) -> Seq<Pair> {
    filelist::intersection(files[i], files[j]).map_values(|p: Seq<char>| (i, j, p))
}

/// The paths of package `i` that collide with the packages after it, up to `n`.
pub open spec fn against_later(files: Seq<Seq<Seq<char>>>, i: int, n: int) -> Seq<Pair>
    decreases n - i,
{
    if n <= i + 1 {
        Seq::empty()
    } else {
        against_later(files, i, n - 1) + against(files, i, n - 1)
    }
}

/// Every collision of the first `m` packages with a later package: the loop over pairs.
pub open spec fn pairwise(files: Seq<Seq<Seq<char>>>, m: int) -> Seq<Pair>
    decreases m,
{
    if m <= 0 {
        Seq::empty()
    } else {
        pairwise(files, m - 1) + against_later(files, m - 1, files.len() as int)
    }
}

// ---------------------------------------------------------------------------------------------
// The same collisions, entry by entry

/// An entry: the package and the path.
type Entry = (int, Seq<char>);

/// The collisions of one entry with the packages before `n`.
spec fn entry_row(files: Seq<Seq<Seq<char>>>, e: Entry, n: int) -> Seq<Pair>
    decreases n - e.0,
{
    if n <= e.0 + 1 {
        Seq::empty()
    } else if filelist::collides(e.1, files[n - 1]) {
        entry_row(files, e, n - 1).push((e.0, n - 1, e.1))
    } else {
        entry_row(files, e, n - 1)
    }
}

/// The collisions of a list of entries.
spec fn rows(files: Seq<Seq<Seq<char>>>, entries: Seq<Entry>) -> Seq<Pair>
    decreases entries.len(),
{
    if entries.len() == 0 {
        Seq::empty()
    } else {
        rows(files, entries.drop_last()) + entry_row(files, entries.last(), files.len() as int)
    }
}

/// The entries of package `i`.
spec fn tagged(files: Seq<Seq<Seq<char>>>, i: int) -> Seq<Entry> {
    files[i].map_values(|p: Seq<char>| (i, p))
}

/// The entries of the first `m` packages.
spec fn all_entries(files: Seq<Seq<Seq<char>>>, m: int) -> Seq<Entry>
    decreases m,
{
    if m <= 0 {
        Seq::empty()
    } else {
        all_entries(files, m - 1) + tagged(files, m - 1)
    }
}

proof fn lemma_rows_push(files: Seq<Seq<Seq<char>>>, entries: Seq<Entry>, e: Entry)
    ensures
        rows(files, entries.push(e)) == rows(files, entries) + entry_row(
            files,
            e,
            files.len() as int,
        ),
{
    assert(entries.push(e).drop_last() =~= entries);
}

proof fn lemma_rows_add(files: Seq<Seq<Seq<char>>>, a: Seq<Entry>, b: Seq<Entry>)
    ensures
        rows(files, a + b) == rows(files, a) + rows(files, b),
    decreases b.len(),
{
    if b.len() == 0 {
        assert(a + b =~= a);
        assert(rows(files, a) + Seq::<Pair>::empty() =~= rows(files, a));
    } else {
        assert((a + b).drop_last() =~= a + b.drop_last());
        lemma_rows_add(files, a, b.drop_last());
        assert(rows(files, a) + rows(files, b.drop_last()) + entry_row(
            files,
            b.last(),
            files.len() as int,
        ) =~= rows(files, a) + (rows(files, b.drop_last()) + entry_row(
            files,
            b.last(),
            files.len() as int,
        )));
    }
}

/// The collisions of one list of entries are those of the list in another order.
proof fn lemma_rows_permutation(files: Seq<Seq<Seq<char>>>, a: Seq<Entry>, b: Seq<Entry>)
    requires
        a.to_multiset() == b.to_multiset(),
    ensures
        rows(files, a).to_multiset() == rows(files, b).to_multiset(),
    decreases a.len(),
{
    assert(a.to_multiset().len() == a.len());
    assert(b.to_multiset().len() == b.len());
    if a.len() > 0 {
        let x = a.last();
        assert(a[a.len() - 1] == x);
        assert(a.to_multiset().count(x) > 0);
        assert(b.contains(x));
        let i = choose|i: int| 0 <= i < b.len() && b[i] == x;
        assert(a.drop_last() =~= a.remove(a.len() - 1));
        lemma_rows_permutation(files, a.drop_last(), b.remove(i));
        let head = b.take(i);
        let tail = b.skip(i + 1);
        let row = entry_row(files, x, files.len() as int);
        assert(b.remove(i) =~= head + tail);
        assert(b =~= head.push(x) + tail);
        lemma_rows_add(files, head, tail);
        lemma_rows_add(files, head.push(x), tail);
        lemma_rows_push(files, head, x);
        vstd::seq_lib::lemma_multiset_commutative(rows(files, head), rows(files, tail));
        vstd::seq_lib::lemma_multiset_commutative(rows(files, head), row);
        vstd::seq_lib::lemma_multiset_commutative(rows(files, head) + row, rows(files, tail));
        vstd::seq_lib::lemma_multiset_commutative(rows(files, a.drop_last()), row);
        assert(rows(files, a).to_multiset() =~= rows(files, b).to_multiset());
    } else {
        assert(a =~= b);
    }
}

/// [`against_later`], for the first `k` paths of the package.
spec fn prefix_later(files: Seq<Seq<Seq<char>>>, i: int, k: int, n: int) -> Seq<Pair>
    decreases n - i,
{
    if n <= i + 1 {
        Seq::empty()
    } else {
        prefix_later(files, i, k, n - 1) + files[i].take(k).filter(
            |p: Seq<char>| filelist::collides(p, files[n - 1]),
        ).map_values(|p: Seq<char>| (i, n - 1, p))
    }
}

proof fn lemma_prefix_whole(files: Seq<Seq<Seq<char>>>, i: int, n: int)
    ensures
        prefix_later(files, i, files[i].len() as int, n) == against_later(files, i, n),
    decreases n - i,
{
    if n > i + 1 {
        lemma_prefix_whole(files, i, n - 1);
        assert(files[i].take(files[i].len() as int) =~= files[i]);
    }
}

proof fn lemma_prefix_empty(files: Seq<Seq<Seq<char>>>, i: int, n: int)
    ensures
        prefix_later(files, i, 0, n) == Seq::<Pair>::empty(),
    decreases n - i,
{
    if n > i + 1 {
        reveal(Seq::filter);
        lemma_prefix_empty(files, i, n - 1);
        assert(files[i].take(0).filter(
            |p: Seq<char>| filelist::collides(p, files[n - 1]),
        ).map_values(|p: Seq<char>| (i, n - 1, p)) =~= Seq::<Pair>::empty());
    }
}

/// One more path adds that path's own row.
proof fn lemma_prefix_step(files: Seq<Seq<Seq<char>>>, i: int, k: int, n: int)
    requires
        0 <= k < files[i].len(),
    ensures
        prefix_later(files, i, k + 1, n).to_multiset() == prefix_later(
            files,
            i,
            k,
            n,
        ).to_multiset().add(entry_row(files, (i, files[i][k]), n).to_multiset()),
    decreases n - i,
{
    let p = files[i][k];
    if n > i + 1 {
        let keep = |q: Seq<char>| filelist::collides(q, files[n - 1]);
        let tag = |q: Seq<char>| (i, n - 1, q);
        lemma_prefix_step(files, i, k, n - 1);
        order::lemma_filter_step(files[i], k, keep);
        let was = files[i].take(k).filter(keep).map_values(tag);
        let now = files[i].take(k + 1).filter(keep).map_values(tag);
        let before = prefix_later(files, i, k, n - 1);
        let after = prefix_later(files, i, k + 1, n - 1);
        let row = entry_row(files, (i, p), n - 1);
        vstd::seq_lib::lemma_multiset_commutative(before, was);
        vstd::seq_lib::lemma_multiset_commutative(after, now);
        if keep(p) {
            assert(now =~= was.push((i, n - 1, p)));
            assert(now.to_multiset() =~= was.to_multiset().insert((i, n - 1, p)));
            assert(entry_row(files, (i, p), n).to_multiset() =~= row.to_multiset().insert(
                (i, n - 1, p),
            ));
        } else {
            assert(now =~= was);
        }
        assert(prefix_later(files, i, k + 1, n).to_multiset() =~= prefix_later(
            files,
            i,
            k,
            n,
        ).to_multiset().add(entry_row(files, (i, p), n).to_multiset()));
    } else {
        assert(Seq::<Pair>::empty().to_multiset().add(Seq::<Pair>::empty().to_multiset())
            =~= Seq::<Pair>::empty().to_multiset());
    }
}

/// One package's collisions are the rows of its entries.
proof fn lemma_block(files: Seq<Seq<Seq<char>>>, i: int, k: int)
    requires
        0 <= k <= files[i].len(),
    ensures
        prefix_later(files, i, k, files.len() as int).to_multiset() == rows(
            files,
            tagged(files, i).take(k),
        ).to_multiset(),
    decreases k,
{
    let n = files.len() as int;
    if k == 0 {
        lemma_prefix_empty(files, i, n);
        assert(tagged(files, i).take(0) =~= Seq::<Entry>::empty());
    } else {
        let entries = tagged(files, i).take(k - 1);
        lemma_block(files, i, k - 1);
        lemma_prefix_step(files, i, k - 1, n);
        assert(tagged(files, i).take(k) =~= entries.push((i, files[i][k - 1])));
        lemma_rows_push(files, entries, (i, files[i][k - 1]));
        vstd::seq_lib::lemma_multiset_commutative(
            rows(files, entries),
            entry_row(files, (i, files[i][k - 1]), n),
        );
    }
}

/// The loop over pairs and the rows of the entries hold the same collisions.
proof fn lemma_pairwise_rows(files: Seq<Seq<Seq<char>>>, m: int)
    requires
        0 <= m <= files.len(),
    ensures
        pairwise(files, m).to_multiset() == rows(files, all_entries(files, m)).to_multiset(),
    decreases m,
{
    if m > 0 {
        let i = m - 1;
        lemma_pairwise_rows(files, i);
        lemma_prefix_whole(files, i, files.len() as int);
        lemma_block(files, i, files[i].len() as int);
        assert(tagged(files, i).take(files[i].len() as int) =~= tagged(files, i));
        lemma_rows_add(files, all_entries(files, i), tagged(files, i));
        vstd::seq_lib::lemma_multiset_commutative(
            pairwise(files, i),
            against_later(files, i, files.len() as int),
        );
        vstd::seq_lib::lemma_multiset_commutative(
            rows(files, all_entries(files, i)),
            rows(files, tagged(files, i)),
        );
    }
}

// ---------------------------------------------------------------------------------------------
// The order of the loop over pairs

/// The order of collisions: by package, then by the other package, then by path.
pub open spec fn pair_le(x: Pair, y: Pair) -> bool {
    x.0 < y.0 || (x.0 == y.0 && (x.1 < y.1 || (x.1 == y.1 && text::text_le(x.2, y.2))))
}

spec fn pairs_sorted(s: Seq<Pair>) -> bool {
    forall|i: int, j: int| 0 <= i < j < s.len() ==> pair_le(#[trigger] s[i], #[trigger] s[j])
}

proof fn lemma_pairs_unique(a: Seq<Pair>, b: Seq<Pair>)
    requires
        pairs_sorted(a),
        pairs_sorted(b),
        a.to_multiset() == b.to_multiset(),
    ensures
        a == b,
    decreases a.len(),
{
    assert(a.to_multiset().len() == a.len());
    assert(b.to_multiset().len() == b.len());
    if a.len() > 0 {
        assert(a.to_multiset().count(a[0]) > 0);
        assert(b.to_multiset().count(b[0]) > 0);
        assert(b.contains(a[0]));
        assert(a.contains(b[0]));
        let i = choose|i: int| 0 <= i < b.len() && b[i] == a[0];
        let j = choose|j: int| 0 <= j < a.len() && a[j] == b[0];
        text::lemma_text_lt_total(a[0].2, b[0].2);
        assert(i > 0 ==> pair_le(b[0], b[i]));
        assert(j > 0 ==> pair_le(a[0], a[j]));
        assert(a[0] == b[0]);
        assert(a.remove(0) =~= a.skip(1));
        assert(b.remove(0) =~= b.skip(1));
        let x = a.skip(1);
        let y = b.skip(1);
        assert forall|p: int, q: int| 0 <= p < q < x.len() implies pair_le(
            #[trigger] x[p],
            #[trigger] x[q],
        ) by {
            assert(x[p] == a[p + 1] && x[q] == a[q + 1]);
        }
        assert forall|p: int, q: int| 0 <= p < q < y.len() implies pair_le(
            #[trigger] y[p],
            #[trigger] y[q],
        ) by {
            assert(y[p] == b[p + 1] && y[q] == b[q + 1]);
        }
        lemma_pairs_unique(x, y);
        assert(a =~= seq![a[0]] + x);
        assert(b =~= seq![b[0]] + y);
    } else {
        assert(a =~= b);
    }
}

/// Filtering keeps an ascending list ascending.
proof fn lemma_filter_ascending(s: Seq<Seq<char>>, keep: spec_fn(Seq<char>) -> bool)
    requires
        table::ascending(s),
    ensures
        table::ascending(s.filter(keep)),
        forall|i: int|
            0 <= i < s.filter(keep).len() ==> s.contains(#[trigger] s.filter(keep)[i]) && keep(
                s.filter(keep)[i],
            ),
    decreases s.len(),
{
    reveal(Seq::filter);
    if s.len() > 0 {
        let t = s.drop_last();
        let f = t.filter(keep);
        assert forall|i: int, j: int| 0 <= i < j < t.len() implies text::text_le(
            #[trigger] t[i],
            #[trigger] t[j],
        ) by {
            assert(t[i] == s[i] && t[j] == s[j]);
        }
        lemma_filter_ascending(t, keep);
        assert forall|i: int| 0 <= i < s.filter(keep).len() implies s.contains(
            #[trigger] s.filter(keep)[i],
        ) && keep(s.filter(keep)[i]) by {
            if i < f.len() {
                assert(s.filter(keep)[i] == f[i]);
                let k = choose|k: int| 0 <= k < t.len() && t[k] == f[i];
                assert(s[k] == f[i]);
            } else {
                assert(s[s.len() - 1] == s.filter(keep)[i]);
            }
        }
        if keep(s.last()) {
            let g = f.push(s.last());
            assert forall|i: int, j: int| 0 <= i < j < g.len() implies text::text_le(
                #[trigger] g[i],
                #[trigger] g[j],
            ) by {
                if j == f.len() {
                    assert(g[i] == f[i]);
                    let k = choose|k: int| 0 <= k < t.len() && t[k] == f[i];
                    assert(s[k] == f[i]);
                    assert(text::text_le(s[k], s[s.len() - 1]));
                } else {
                    assert(g[i] == f[i] && g[j] == f[j]);
                }
            }
        }
    }
}

proof fn lemma_against_sorted(files: Seq<Seq<Seq<char>>>, i: int, j: int)
    requires
        table::ascending(files[i]),
    ensures
        pairs_sorted(against(files, i, j)),
{
    lemma_filter_ascending(files[i], |p: Seq<char>| filelist::collides(p, files[j]));
    let s = filelist::intersection(files[i], files[j]);
    let t = against(files, i, j);
    assert forall|a: int, b: int| 0 <= a < b < t.len() implies pair_le(
        #[trigger] t[a],
        #[trigger] t[b],
    ) by {
        assert(text::text_le(s[a], s[b]));
    }
}

proof fn lemma_later_sorted(files: Seq<Seq<Seq<char>>>, i: int, n: int)
    requires
        table::ascending(files[i]),
    ensures
        pairs_sorted(against_later(files, i, n)),
        forall|a: int|
            0 <= a < against_later(files, i, n).len() ==> (
            #[trigger] against_later(files, i, n)[a]).0 == i && against_later(files, i, n)[a].1 < n,
    decreases n - i,
{
    if n > i + 1 {
        lemma_later_sorted(files, i, n - 1);
        lemma_against_sorted(files, i, n - 1);
        let a = against_later(files, i, n - 1);
        let b = against(files, i, n - 1);
        let c = against_later(files, i, n);
        assert(c =~= a + b);
        assert forall|p: int, q: int| 0 <= p < q < c.len() implies pair_le(
            #[trigger] c[p],
            #[trigger] c[q],
        ) by {
            if q < a.len() {
                assert(c[p] == a[p] && c[q] == a[q]);
            } else if p >= a.len() {
                assert(c[p] == b[p - a.len()] && c[q] == b[q - a.len()]);
            } else {
                assert(c[p] == a[p] && c[q] == b[q - a.len()]);
            }
        }
        assert forall|p: int| 0 <= p < c.len() implies (#[trigger] c[p]).0 == i && c[p].1 < n by {
            if p < a.len() {
                assert(c[p] == a[p]);
            } else {
                assert(c[p] == b[p - a.len()]);
            }
        }
    }
}

/// The loop over pairs reports by package, then by the other package, then by path.
proof fn lemma_pairwise_sorted(files: Seq<Seq<Seq<char>>>, m: int)
    requires
        0 <= m <= files.len(),
        forall|i: int| 0 <= i < files.len() ==> table::ascending(#[trigger] files[i]),
    ensures
        pairs_sorted(pairwise(files, m)),
        forall|a: int|
            0 <= a < pairwise(files, m).len() ==> (#[trigger] pairwise(files, m)[a]).0 < m,
    decreases m,
{
    if m > 0 {
        lemma_pairwise_sorted(files, m - 1);
        assert(table::ascending(files[m - 1]));
        lemma_later_sorted(files, m - 1, files.len() as int);
        let a = pairwise(files, m - 1);
        let b = against_later(files, m - 1, files.len() as int);
        let c = pairwise(files, m);
        assert(c =~= a + b);
        assert forall|p: int, q: int| 0 <= p < q < c.len() implies pair_le(
            #[trigger] c[p],
            #[trigger] c[q],
        ) by {
            if q < a.len() {
                assert(c[p] == a[p] && c[q] == a[q]);
            } else if p >= a.len() {
                assert(c[p] == b[p - a.len()] && c[q] == b[q - a.len()]);
            } else {
                assert(c[p] == a[p] && c[q] == b[q - a.len()]);
            }
        }
        assert forall|p: int| 0 <= p < c.len() implies (#[trigger] c[p]).0 < m by {
            if p < a.len() {
                assert(c[p] == a[p]);
            } else {
                assert(c[p] == b[p - a.len()]);
            }
        }
    }
}

/// The collisions of a list of entries that holds every entry of every package, put in order,
/// are the loop over pairs.
proof fn lemma_sorted_rows(files: Seq<Seq<Seq<char>>>, entries: Seq<Entry>, found: Seq<Pair>)
    requires
        forall|i: int| 0 <= i < files.len() ==> table::ascending(#[trigger] files[i]),
        entries.to_multiset() == all_entries(files, files.len() as int).to_multiset(),
        found.to_multiset() == rows(files, entries).to_multiset(),
        pairs_sorted(found),
    ensures
        found == pairwise(files, files.len() as int),
{
    let n = files.len() as int;
    lemma_rows_permutation(files, entries, all_entries(files, n));
    lemma_pairwise_rows(files, n);
    lemma_pairwise_sorted(files, n);
    lemma_pairs_unique(found, pairwise(files, n));
}

// ---------------------------------------------------------------------------------------------
// The sorted entries

/// One package's entry, keyed by the place it names.
#[derive(Clone, Copy, Debug)]
struct Shipped<'a> {
    /// The path without its trailing `/`.
    key: &'a str,
    /// The package that ships it.
    target: usize,
    /// The path as that package spells it.
    spelled: &'a str,
}

impl<'a> Ordered for Shipped<'a> {
    closed spec fn precedes(self, other: Self) -> bool {
        text::text_lt(self.key@, other.key@) || (self.key@ == other.key@ && (self.target
            < other.target || (self.target == other.target && text::text_lt(
            self.spelled@,
            other.spelled@,
        ))))
    }

    proof fn asymmetric(a: Self, b: Self) {
        text::lemma_text_lt_total(a.key@, b.key@);
        text::lemma_text_lt_total(a.spelled@, b.spelled@);
    }

    proof fn transitive(a: Self, b: Self, c: Self) {
        text::lemma_text_lt_total(a.key@, b.key@);
        text::lemma_text_lt_total(b.key@, c.key@);
        text::lemma_text_lt_total(a.key@, c.key@);
        text::lemma_text_lt_total(a.spelled@, b.spelled@);
        text::lemma_text_lt_total(b.spelled@, c.spelled@);
        text::lemma_text_lt_total(a.spelled@, c.spelled@);
        if text::text_lt(a.key@, b.key@) && text::text_lt(b.key@, c.key@) {
            text::lemma_text_lt_transitive(a.key@, b.key@, c.key@);
        }
        if text::text_lt(a.spelled@, b.spelled@) && text::text_lt(b.spelled@, c.spelled@) {
            text::lemma_text_lt_transitive(a.spelled@, b.spelled@, c.spelled@);
        }
    }

    fn before(&self, other: &Self) -> (r: bool) {
        if text::less(self.key, other.key) {
            true
        } else if !text::same(self.key, other.key) {
            false
        } else if self.target != other.target {
            self.target < other.target
        } else {
            text::less(self.spelled, other.spelled)
        }
    }
}

/// What an entry says.
spec fn entry_of(s: Shipped) -> Entry {
    (s.target as int, s.spelled@)
}

/// What a list of entries says.
spec fn entries_of(list: Seq<Shipped>) -> Seq<Entry> {
    list.map_values(|s: Shipped| entry_of(s))
}

/// Every entry is keyed by the place it names.
spec fn keyed(list: Seq<Shipped>) -> bool {
    forall|i: int|
        0 <= i < list.len() ==> (#[trigger] list[i]).key@ == filelist::stripped(list[i].spelled@)
}

/// Every entry of every package, in the order of the packages.
fn shipped<'a>(targets: &'a Vec<Target>) -> (r: Vec<Shipped<'a>>)
    ensures
        entries_of(r@) == all_entries(crate::conflict::lists(targets@), targets.len() as int),
        keyed(r@),
{
    let mut out: Vec<Shipped<'a>> = Vec::new();
    let ghost files = crate::conflict::lists(targets@);
    let mut t: usize = 0;
    assert(entries_of(out@) =~= Seq::<Entry>::empty());
    while t < targets.len()
        invariant
            t <= targets.len(),
            files == crate::conflict::lists(targets@),
            entries_of(out@) == all_entries(files, t as int),
            keyed(out@),
        decreases targets.len() - t,
    {
        let list = &targets[t].files;
        let ghost base = entries_of(out@);
        let mut i: usize = 0;
        assert(files[t as int] == list@);
        assert(base + tagged(files, t as int).take(0) =~= base);
        while i < list.len()
            invariant
                i <= list@.len(),
                t < targets.len(),
                files[t as int] == list@,
                entries_of(out@) == base + tagged(files, t as int).take(i as int),
                keyed(out@),
            decreases list@.len() - i,
        {
            let spelled = list.get(i);
            let entry = Shipped { key: filelist::strip_dir(spelled), target: t, spelled };
            let ghost was = out@;
            out.push(entry);
            proof {
                assert(entries_of(out@) =~= entries_of(was).push(entry_of(entry)));
                assert(tagged(files, t as int).take(i + 1) =~= tagged(files, t as int).take(
                    i as int,
                ).push(entry_of(entry)));
                assert(entries_of(out@) =~= base + tagged(files, t as int).take(i + 1));
            }
            i += 1;
        }
        assert(tagged(files, t as int).take(list@.len() as int) =~= tagged(files, t as int));
        t += 1;
    }
    out
}

/// The entries of the list are those of the packages, neither more nor fewer.
spec fn complete(files: Seq<Seq<Seq<char>>>, list: Seq<Shipped>) -> bool {
    &&& forall|c: int|
        0 <= c < list.len() ==> 0 <= (#[trigger] list[c]).target < files.len()
            && files[list[c].target as int].contains(list[c].spelled@)
    &&& forall|j: int, e: int|
        0 <= j < files.len() && 0 <= e < files[j].len() ==> entries_of(list).contains(
            (j, #[trigger] files[j][e]),
        )
}

proof fn lemma_all_entries(files: Seq<Seq<Seq<char>>>, m: int)
    requires
        0 <= m <= files.len(),
    ensures
        forall|x: Entry|
            #[trigger] all_entries(files, m).contains(x) <==> 0 <= x.0 < m && files[x.0].contains(
                x.1,
            ),
    decreases m,
{
    if m > 0 {
        lemma_all_entries(files, m - 1);
        let a = all_entries(files, m - 1);
        let b = tagged(files, m - 1);
        assert forall|x: Entry| #[trigger] all_entries(files, m).contains(x) <==> 0 <= x.0 < m
            && files[x.0].contains(x.1) by {
            let c = a + b;
            assert(c == all_entries(files, m));
            if c.contains(x) {
                let i = choose|i: int| 0 <= i < c.len() && c[i] == x;
                if i < a.len() {
                    assert(a[i] == x);
                    assert(a.contains(x));
                } else {
                    assert(b[i - a.len()] == x);
                    assert(files[m - 1][i - a.len()] == x.1);
                }
            }
            if 0 <= x.0 < m && files[x.0].contains(x.1) {
                if x.0 < m - 1 {
                    assert(a.contains(x));
                    let i = choose|i: int| 0 <= i < a.len() && a[i] == x;
                    assert(c[i] == x);
                } else {
                    let own = files[m - 1];
                    let i = choose|i: int| 0 <= i < own.len() && own[i] == x.1;
                    assert(b[i] == x);
                    assert(c[a.len() + i] == x);
                }
            }
        }
    }
}

proof fn lemma_complete(files: Seq<Seq<Seq<char>>>, list: Seq<Shipped>)
    requires
        entries_of(list).to_multiset() == all_entries(files, files.len() as int).to_multiset(),
    ensures
        complete(files, list),
{
    let all = all_entries(files, files.len() as int);
    let mine = entries_of(list);
    lemma_all_entries(files, files.len() as int);
    assert forall|c: int| 0 <= c < list.len() implies 0 <= (#[trigger] list[c]).target
        < files.len() && files[list[c].target as int].contains(list[c].spelled@) by {
        assert(mine[c] == entry_of(list[c]));
        assert(mine.contains(mine[c]));
        assert(mine.to_multiset().count(mine[c]) > 0);
        assert(all.contains(mine[c]));
    }
    assert forall|j: int, e: int|
        0 <= j < files.len() && 0 <= e < files[j].len() implies mine.contains(
        (j, #[trigger] files[j][e]),
    ) by {
        assert(files[j].contains(files[j][e]));
        assert(all.contains((j, files[j][e])));
        assert(all.to_multiset().count((j, files[j][e])) > 0);
        assert(mine.to_multiset().count((j, files[j][e])) > 0);
    }
}

/// `lo..hi` is one group: the entries of one place, and all of them.
spec fn group(list: Seq<Shipped>, lo: int, hi: int) -> bool {
    &&& 0 <= lo < hi <= list.len()
    &&& forall|c: int|
        0 <= c < list.len() ==> ((#[trigger] list[c]).key@ == list[lo].key@ <==> lo <= c < hi)
}

/// Whether package `j` has an entry in `lo..hi`; with `file`, one that is not a directory.
#[verifier::opaque]
spec fn present(list: Seq<Shipped>, lo: int, hi: int, j: int, file: bool) -> bool {
    exists|c: int|
        lo <= c < hi && (#[trigger] list[c]).target == j && !(file && filelist::names_directory(
            list[c].spelled@,
        ))
}

proof fn lemma_present_step(list: Seq<Shipped>, lo: int, c: int, j: int, file: bool)
    requires
        lo <= c < list.len(),
    ensures
        present(list, lo, c + 1, j, file) <==> present(list, lo, c, j, file) || (list[c].target == j
            && !(file && filelist::names_directory(list[c].spelled@))),
{
    reveal(present);
    if present(list, lo, c, j, file) {
        let k = choose|k: int|
            lo <= k < c && (#[trigger] list[k]).target == j && !(file && filelist::names_directory(
                list[k].spelled@,
            ));
        assert(list[k].target == j);
    }
}

/// Whether an entry of a group collides with a package, in terms of the group.
proof fn lemma_group_collides(
    files: Seq<Seq<Seq<char>>>,
    list: Seq<Shipped>,
    lo: int,
    hi: int,
    a: int,
    j: int,
)
    requires
        complete(files, list),
        keyed(list),
        group(list, lo, hi),
        lo <= a < hi,
        0 <= j < files.len(),
    ensures
        filelist::collides(list[a].spelled@, files[j]) <==> present(
            list,
            lo,
            hi,
            j,
            filelist::names_directory(list[a].spelled@),
        ),
{
    reveal(present);
    let p = list[a].spelled@;
    let own = files[j];
    assert(list[a].key@ == list[lo].key@);
    if filelist::collides(p, own) {
        let e = choose|e: int|
            0 <= e < own.len() && filelist::stripped(#[trigger] own[e]) == filelist::stripped(p)
                && !(filelist::names_directory(p) && filelist::names_directory(own[e]));
        assert(entries_of(list).contains((j, files[j][e])));
        let c = choose|c: int|
            0 <= c < entries_of(list).len() && entries_of(list)[c] == (j, files[j][e]);
        assert(entry_of(list[c]) == (j, own[e]));
        assert(list[c].key@ == filelist::stripped(list[c].spelled@));
        assert(list[c].key@ == list[lo].key@);
        assert(lo <= c < hi);
    }
    if present(list, lo, hi, j, filelist::names_directory(p)) {
        let c = choose|c: int|
            lo <= c < hi && (#[trigger] list[c]).target == j && !(filelist::names_directory(p)
                && filelist::names_directory(list[c].spelled@));
        assert(list[c].key@ == list[lo].key@);
        assert(own.contains(list[c].spelled@));
        let e = choose|e: int| 0 <= e < own.len() && own[e] == list[c].spelled@;
        assert(filelist::stripped(own[e]) == filelist::stripped(p));
        assert(filelist::collides(p, own));
    }
}

/// No package between `low` and `high` collides, so they add nothing to a row.
proof fn lemma_row_gap(files: Seq<Seq<Seq<char>>>, e: Entry, low: int, high: int)
    requires
        low <= high,
        forall|j: int| low <= j < high && j > e.0 ==> !filelist::collides(e.1, #[trigger] files[j]),
    ensures
        entry_row(files, e, high) == entry_row(files, e, low),
    decreases high - low,
{
    if low < high {
        lemma_row_gap(files, e, low, high - 1);
        if high > e.0 + 1 {
            assert(!filelist::collides(e.1, files[high - 1]));
        }
    }
}

/// The entries of one package in a group.
#[derive(Clone, Copy, Debug)]
struct Run {
    /// The package.
    target: usize,
    /// Whether it ships the place as something other than a directory.
    has_file: bool,
}

/// The runs are in the order of the packages.
spec fn runs_ascend(runs: Seq<Run>) -> bool {
    forall|a: int, b: int|
        0 <= a < b < runs.len() ==> (#[trigger] runs[a]).target < (#[trigger] runs[b]).target
}

/// Whether package `j` has a run; with `file`, one that holds a file.
#[verifier::opaque]
spec fn hit(runs: Seq<Run>, j: int, file: bool) -> bool {
    exists|r: int|
        0 <= r < runs.len() && (#[trigger] runs[r]).target == j && (!file || runs[r].has_file)
}

proof fn lemma_hit_push(runs: Seq<Run>, run: Run, j: int, file: bool)
    ensures
        hit(runs.push(run), j, file) <==> hit(runs, j, file) || (run.target == j && (!file
            || run.has_file)),
{
    reveal(hit);
    let now = runs.push(run);
    if hit(runs, j, file) {
        let r = choose|r: int|
            0 <= r < runs.len() && (#[trigger] runs[r]).target == j && (!file || runs[r].has_file);
        assert(now[r] == runs[r]);
    }
    if run.target == j && (!file || run.has_file) {
        assert(now[runs.len() as int] == run);
    }
    if hit(now, j, file) {
        let r = choose|r: int|
            0 <= r < now.len() && (#[trigger] now[r]).target == j && (!file || now[r].has_file);
        if r < runs.len() {
            assert(runs[r] == now[r]);
        }
    }
}

/// A run that is told of one more entry.
proof fn lemma_hit_update(runs: Seq<Run>, more: bool, j: int, file: bool)
    requires
        runs.len() > 0,
    ensures
        ({
            let last = runs.last();
            let next = Run { target: last.target, has_file: last.has_file || more };
            hit(runs.update(runs.len() - 1, next), j, file) <==> hit(runs, j, file) || (last.target
                == j && (!file || more))
        }),
{
    reveal(hit);
    let at = runs.len() - 1;
    let last = runs[at];
    let next = Run { target: last.target, has_file: last.has_file || more };
    let now = runs.update(at, next);
    assert(now[at] == next);
    if hit(runs, j, file) {
        let r = choose|r: int|
            0 <= r < runs.len() && (#[trigger] runs[r]).target == j && (!file || runs[r].has_file);
        assert(r != at ==> now[r] == runs[r]);
        assert(now[r].target == j);
    }
    if hit(now, j, file) {
        let r = choose|r: int|
            0 <= r < now.len() && (#[trigger] now[r]).target == j && (!file || now[r].has_file);
        if r != at {
            assert(runs[r] == now[r]);
        } else {
            assert(runs[at].target == j);
        }
    }
}

/// Whether the package of a run is hit is for that run to say.
proof fn lemma_hit_at(runs: Seq<Run>, r: int, file: bool)
    requires
        runs_ascend(runs),
        0 <= r < runs.len(),
    ensures
        hit(runs, runs[r].target as int, file) <==> (!file || runs[r].has_file),
{
    reveal(hit);
    if hit(runs, runs[r].target as int, file) {
        let q = choose|q: int|
            0 <= q < runs.len() && (#[trigger] runs[q]).target == runs[r].target && (!file
                || runs[q].has_file);
        if q < r {
            assert(runs[q].target < runs[r].target);
        } else if r < q {
            assert(runs[r].target < runs[q].target);
        }
    }
}

/// No package between two runs is hit.
proof fn lemma_hit_between(runs: Seq<Run>, r: int, j: int, file: bool)
    requires
        runs_ascend(runs),
        0 <= r <= runs.len(),
        r > 0 ==> runs[r - 1].target < j,
        r < runs.len() ==> j < runs[r].target,
    ensures
        !hit(runs, j, file),
{
    reveal(hit);
    if hit(runs, j, file) {
        let q = choose|q: int|
            0 <= q < runs.len() && (#[trigger] runs[q]).target == j && (!file || runs[q].has_file);
        if q < r - 1 {
            assert(runs[q].target < runs[r - 1].target);
        } else if q > r {
            assert(runs[r].target < runs[q].target);
        }
    }
}

/// The runs say which packages have entries in `lo..hi`, and which have a file there.
spec fn runs_match(list: Seq<Shipped>, lo: int, hi: int, runs: Seq<Run>) -> bool {
    forall|j: int, file: bool| #[trigger]
        hit(runs, j, file) == present(list, lo, hi, j, file)
}

/// The runs of a group.
fn runs_in<'a>(list: &Vec<Shipped<'a>>, lo: usize, hi: usize) -> (runs: Vec<Run>)
    requires
        order::sorted(list@),
        group(list@, lo as int, hi as int),
    ensures
        runs_ascend(runs@),
        runs_match(list@, lo as int, hi as int, runs@),
        runs.len() > 0,
        forall|r: int| 0 <= r < runs.len() ==> exists|c: int|
            lo <= c < hi && (#[trigger] list@[c]).target == (#[trigger] runs@[r]).target,
{
    let mut runs: Vec<Run> = Vec::new();
    let mut c: usize = lo;
    proof {
        reveal(hit);
        reveal(present);
    }
    while c < hi
        invariant
            lo <= c <= hi <= list.len(),
            order::sorted(list@),
            group(list@, lo as int, hi as int),
            runs_ascend(runs@),
            runs_match(list@, lo as int, c as int, runs@),
            c > lo ==> runs.len() > 0 && runs@.last().target == list@[c - 1].target,
            c == lo ==> runs.len() == 0,
            forall|r: int| 0 <= r < runs.len() ==> exists|c: int|
                lo <= c < hi && (#[trigger] list@[c]).target == (#[trigger] runs@[r]).target,
        decreases hi - c,
    {
        let target = list[c].target;
        let file = !filelist::is_directory(list[c].spelled);
        let ghost was = runs@;
        proof {
            if c > lo {
                assert(!list@[c as int].precedes(list@[c - 1]));
                assert(list@[c as int].key@ == list@[lo as int].key@);
                assert(list@[c - 1].key@ == list@[lo as int].key@);
                text::lemma_text_lt_total(list@[c as int].key@, list@[c - 1].key@);
                assert(list@[c - 1].target <= target);
            }
        }
        if runs.len() > 0 && runs[runs.len() - 1].target == target {
            let last: usize = runs.len() - 1;
            let has_file = runs[last].has_file || file;
            runs.set(last, Run { target, has_file });
            proof {
                assert forall|j: int, f: bool| #[trigger]
                    hit(runs@, j, f) == present(list@, lo as int, c + 1, j, f) by {
                    lemma_hit_update(was, file, j, f);
                    lemma_present_step(list@, lo as int, c as int, j, f);
                    assert(hit(was, j, f) == present(list@, lo as int, c as int, j, f));
                }
                assert forall|a: int, b: int| 0 <= a < b < runs.len() implies (
                #[trigger] runs@[a]).target < (#[trigger] runs@[b]).target by {
                    assert(was[a].target < was[b].target);
                }
            }
        } else {
            runs.push(Run { target, has_file: file });
            proof {
                assert forall|j: int, f: bool| #[trigger]
                    hit(runs@, j, f) == present(list@, lo as int, c + 1, j, f) by {
                    lemma_hit_push(was, Run { target, has_file: file }, j, f);
                    lemma_present_step(list@, lo as int, c as int, j, f);
                    assert(hit(was, j, f) == present(list@, lo as int, c as int, j, f));
                }
                assert forall|a: int, b: int| 0 <= a < b < runs.len() implies (
                #[trigger] runs@[a]).target < (#[trigger] runs@[b]).target by {
                    if b < was.len() {
                        assert(was[a].target < was[b].target);
                    } else if a < was.len() - 1 {
                        assert(was[a].target < was[was.len() - 1].target);
                    }
                }
            }
        }
        proof {
            assert forall|r: int| 0 <= r < runs.len() implies exists|k: int|
                lo <= k < hi && (#[trigger] list@[k]).target == (#[trigger] runs@[r]).target by {
                if r < was.len() {
                    assert(was[r].target == runs@[r].target);
                } else {
                    assert(list@[c as int].target == runs@[r].target);
                }
            }
        }
        c += 1;
    }
    runs
}

/// Appends the collisions of one entry of a group.
fn expand_entry<'a>(
    found: &mut Vec<Collision<'a>>,
    targets: &Vec<Target>,
    list: &Vec<Shipped<'a>>,
    lo: usize,
    hi: usize,
    a: usize,
    runs: &Vec<Run>,
)
    requires
        complete(crate::conflict::lists(targets@), list@),
        keyed(list@),
        group(list@, lo as int, hi as int),
        runs_ascend(runs@),
        runs_match(list@, lo as int, hi as int, runs@),
        runs.len() > 0,
        forall|r: int| 0 <= r < runs.len() ==> (#[trigger] runs@[r]).target < targets.len(),
        lo <= a < hi,
    ensures
        collision_views(final(found)@) == collision_views(old(found)@) + entry_row(
            crate::conflict::lists(targets@),
            entry_of(list@[a as int]),
            targets.len() as int,
        ),
{
    let entry = list[a];
    let directory = filelist::is_directory(entry.spelled);
    let ghost files = crate::conflict::lists(targets@);
    let ghost e = entry_of(entry);
    let ghost base = collision_views(found@);
    let ghost n = targets.len() as int;
    proof {
        assert forall|j: int| 0 <= j < n implies (filelist::collides(e.1, #[trigger] files[j])
            <==> hit(runs@, j, directory)) by {
            lemma_group_collides(files, list@, lo as int, hi as int, a as int, j);
        }
        assert forall|j: int| 0 <= j < runs@[0].target && j > e.0 implies !filelist::collides(
            e.1,
            #[trigger] files[j],
        ) by {
            lemma_hit_between(runs@, 0, j, directory);
        }
        lemma_row_gap(files, e, 0, runs@[0].target as int);
        assert(base + entry_row(files, e, runs@[0].target as int) =~= base);
    }
    let mut r: usize = 0;
    while r < runs.len()
        invariant
            r <= runs.len(),
            files == crate::conflict::lists(targets@),
            n == files.len(),
            e == entry_of(entry),
            directory == filelist::names_directory(e.1),
            runs_ascend(runs@),
            forall|j: int|
                0 <= j < n ==> (filelist::collides(e.1, #[trigger] files[j]) <==> hit(
                    runs@,
                    j,
                    directory,
                )),
            forall|x: int| 0 <= x < runs.len() ==> (#[trigger] runs@[x]).target < n,
            collision_views(found@) == base + entry_row(
                files,
                e,
                if r < runs.len() {
                    runs@[r as int].target as int
                } else {
                    n
                },
            ),
        decreases runs.len() - r,
    {
        let run = runs[r];
        let ghost was = found@;
        let ghost t = run.target as int;
        proof {
            lemma_hit_at(runs@, r as int, directory);
            assert(filelist::collides(e.1, files[t]) <==> (!directory || run.has_file));
        }
        if run.target > entry.target && (!directory || run.has_file) {
            found.push(
                Collision { first: entry.target, second: run.target, path: entry.spelled },
            );
            proof {
                assert(collision_views(found@) =~= collision_views(was).push((e.0, t, e.1)));
                assert(base + entry_row(files, e, t).push((e.0, t, e.1)) =~= (base + entry_row(
                    files,
                    e,
                    t,
                )).push((e.0, t, e.1)));
            }
        }
        proof {
            let next = if r + 1 < runs.len() {
                runs@[r + 1].target as int
            } else {
                n
            };
            assert(t < next) by {
                if r + 1 < runs.len() {
                    assert(runs@[r as int].target < runs@[r + 1].target);
                }
            }
            assert forall|j: int| t + 1 <= j < next && j > e.0 implies !filelist::collides(
                e.1,
                #[trigger] files[j],
            ) by {
                lemma_hit_between(runs@, r + 1, j, directory);
            }
            lemma_row_gap(files, e, t + 1, next);
        }
        r += 1;
    }
}

/// Where the group that starts at `lo` ends.
fn group_end<'a>(list: &Vec<Shipped<'a>>, lo: usize) -> (hi: usize)
    requires
        order::sorted(list@),
        lo < list.len(),
        lo > 0 ==> list@[lo - 1].key@ != list@[lo as int].key@,
    ensures
        group(list@, lo as int, hi as int),
        hi < list.len() ==> list@[hi - 1].key@ != list@[hi as int].key@,
{
    let mut hi: usize = lo + 1;
    while hi < list.len() && text::same(list[hi].key, list[lo].key)
        invariant
            lo < hi <= list.len(),
            forall|c: int| lo <= c < hi ==> (#[trigger] list@[c]).key@ == list@[lo as int].key@,
        decreases list.len() - hi,
    {
        hi += 1;
    }
    proof {
        let key = list@[lo as int].key@;
        assert forall|c: int| 0 <= c < list.len() implies ((#[trigger] list@[c]).key@ == key
            <==> lo <= c < hi) by {
            if c < lo {
                assert(!list@[lo as int].precedes(list@[lo - 1]));
                text::lemma_text_lt_total(list@[lo as int].key@, list@[lo - 1].key@);
                if c < lo - 1 {
                    assert(!list@[lo - 1].precedes(list@[c]));
                    text::lemma_text_lt_total(list@[lo - 1].key@, list@[c].key@);
                }
                text::lemma_text_lt_total(key, list@[lo - 1].key@);
            } else if c >= hi {
                assert(!list@[hi as int].precedes(list@[lo as int]));
                text::lemma_text_lt_total(list@[hi as int].key@, key);
                if c > hi {
                    assert(!list@[c].precedes(list@[hi as int]));
                    text::lemma_text_lt_total(list@[c].key@, list@[hi as int].key@);
                }
            }
        }
    }
    hi
}

/// Whether every entry of `lo..hi` is a directory.
fn all_directories<'a>(list: &Vec<Shipped<'a>>, lo: usize, hi: usize) -> (r: bool)
    requires
        lo <= hi <= list.len(),
    ensures
        r == forall|c: int|
            lo <= c < hi ==> filelist::names_directory((#[trigger] list@[c]).spelled@),
{
    let mut c: usize = lo;
    while c < hi
        invariant
            lo <= c <= hi <= list.len(),
            forall|k: int|
                lo <= k < c ==> filelist::names_directory((#[trigger] list@[k]).spelled@),
        decreases hi - c,
    {
        if !filelist::is_directory(list[c].spelled) {
            assert(!filelist::names_directory(list@[c as int].spelled@));
            return false;
        }
        c += 1;
    }
    true
}

/// A group of one package, or of directories alone, has no collisions.
proof fn lemma_quiet_group(
    files: Seq<Seq<Seq<char>>>,
    list: Seq<Shipped>,
    lo: int,
    hi: int,
    a: int,
)
    requires
        complete(files, list),
        keyed(list),
        order::sorted(list),
        group(list, lo, hi),
        lo <= a < hi,
        list[lo].target == list[hi - 1].target || forall|c: int|
            lo <= c < hi ==> filelist::names_directory((#[trigger] list[c]).spelled@),
    ensures
        entry_row(files, entry_of(list[a]), files.len() as int) == Seq::<Pair>::empty(),
{
    let e = entry_of(list[a]);
    let file = filelist::names_directory(e.1);
    assert forall|j: int| 0 <= j < files.len() && j > e.0 implies !filelist::collides(
        e.1,
        #[trigger] files[j],
    ) by {
        lemma_group_collides(files, list, lo, hi, a, j);
        reveal(present);
        if present(list, lo, hi, j, file) {
            let c = choose|c: int|
                lo <= c < hi && (#[trigger] list[c]).target == j && !(file
                    && filelist::names_directory(list[c].spelled@));
            if list[lo].target == list[hi - 1].target {
                assert(list[c].key@ == list[lo].key@ && list[a].key@ == list[lo].key@);
                assert(list[hi - 1].key@ == list[lo].key@);
                text::lemma_text_lt_total(list[lo].key@, list[lo].key@);
                if c < hi - 1 {
                    assert(!list[hi - 1].precedes(list[c]));
                }
                if lo < a {
                    assert(!list[a].precedes(list[lo]));
                }
                assert(false);
            }
        }
    }
    lemma_row_gap(files, e, 0, files.len() as int);
}

/// The collisions of the sorted entries, group by group.
fn expand<'a>(targets: &Vec<Target>, list: &Vec<Shipped<'a>>) -> (found: Vec<Collision<'a>>)
    requires
        complete(crate::conflict::lists(targets@), list@),
        keyed(list@),
        order::sorted(list@),
    ensures
        collision_views(found@) == rows(crate::conflict::lists(targets@), entries_of(list@)),
{
    let mut found: Vec<Collision<'a>> = Vec::new();
    let ghost files = crate::conflict::lists(targets@);
    let ghost entries = entries_of(list@);
    let mut lo: usize = 0;
    assert(entries.take(0) =~= Seq::<Entry>::empty());
    assert(collision_views(found@) =~= Seq::<Pair>::empty());
    while lo < list.len()
        invariant
            lo <= list.len(),
            files == crate::conflict::lists(targets@),
            entries == entries_of(list@),
            complete(files, list@),
            keyed(list@),
            order::sorted(list@),
            0 < lo < list.len() ==> list@[lo - 1].key@ != list@[lo as int].key@,
            collision_views(found@) == rows(files, entries.take(lo as int)),
        decreases list.len() - lo,
    {
        let hi = group_end(list, lo);
        let quiet = list[lo].target == list[hi - 1].target || all_directories(list, lo, hi);
        let mut a: usize = lo;
        if quiet {
            while a < hi
                invariant
                    lo <= a <= hi <= list.len(),
                    files == crate::conflict::lists(targets@),
                    entries == entries_of(list@),
                    complete(files, list@),
                    keyed(list@),
                    order::sorted(list@),
                    group(list@, lo as int, hi as int),
                    list@[lo as int].target == list@[hi - 1].target || forall|c: int|
                        lo <= c < hi ==> filelist::names_directory((#[trigger] list@[c]).spelled@),
                    collision_views(found@) == rows(files, entries.take(a as int)),
                decreases hi - a,
            {
                proof {
                    lemma_quiet_group(files, list@, lo as int, hi as int, a as int);
                    assert(entries.take(a + 1) =~= entries.take(a as int).push(
                        entry_of(list@[a as int]),
                    ));
                    lemma_rows_push(files, entries.take(a as int), entry_of(list@[a as int]));
                    assert(rows(files, entries.take(a as int)) + Seq::<Pair>::empty() =~= rows(
                        files,
                        entries.take(a as int),
                    ));
                }
                a += 1;
            }
        } else {
            let runs = runs_in(list, lo, hi);
            while a < hi
                invariant
                    lo <= a <= hi <= list.len(),
                    files == crate::conflict::lists(targets@),
                    entries == entries_of(list@),
                    complete(files, list@),
                    keyed(list@),
                    group(list@, lo as int, hi as int),
                    runs_ascend(runs@),
                    runs_match(list@, lo as int, hi as int, runs@),
                    runs.len() > 0,
                    forall|r: int| 0 <= r < runs.len() ==> exists|c: int|
                        lo <= c < hi && (#[trigger] list@[c]).target == (
                        #[trigger] runs@[r]).target,
                    collision_views(found@) == rows(files, entries.take(a as int)),
                decreases hi - a,
            {
                proof {
                    assert forall|r: int| 0 <= r < runs.len() implies (
                    #[trigger] runs@[r]).target < targets.len() by {
                        let c = choose|c: int|
                            lo <= c < hi && (#[trigger] list@[c]).target == runs@[r].target;
                        assert(list@[c].target < files.len());
                    }
                    assert(entries.take(a + 1) =~= entries.take(a as int).push(
                        entry_of(list@[a as int]),
                    ));
                    lemma_rows_push(files, entries.take(a as int), entry_of(list@[a as int]));
                }
                expand_entry(&mut found, targets, list, lo, hi, a, &runs);
                a += 1;
            }
        }
        lo = hi;
    }
    assert(entries.take(entries.len() as int) =~= entries);
    found
}

impl<'a> Ordered for Collision<'a> {
    open spec fn precedes(self, other: Self) -> bool {
        !pair_le(other@, self@)
    }

    proof fn asymmetric(a: Self, b: Self) {
        text::lemma_text_lt_total(a.path@, b.path@);
    }

    proof fn transitive(a: Self, b: Self, c: Self) {
        if text::text_lt(a.path@, b.path@) && text::text_lt(b.path@, c.path@) {
            text::lemma_text_lt_transitive(a.path@, b.path@, c.path@);
        }
    }

    fn before(&self, other: &Self) -> (r: bool) {
        proof {
            text::lemma_text_lt_total(self.path@, other.path@);
        }
        if self.first != other.first {
            self.first < other.first
        } else if self.second != other.second {
            self.second < other.second
        } else {
            text::less(self.path, other.path)
        }
    }
}

/// Every path that two of `targets` ship, in the order of the loop over pairs.
pub fn collisions<'a>(targets: &'a Vec<Target>) -> (found: Vec<Collision<'a>>)
    ensures
        collision_views(found@) == pairwise(crate::conflict::lists(targets@), targets.len() as int),
{
    let ghost files = crate::conflict::lists(targets@);
    let mut t: usize = 0;
    while t < targets.len()
        invariant
            t <= targets.len(),
            files == crate::conflict::lists(targets@),
            forall|i: int| 0 <= i < t ==> table::ascending(#[trigger] files[i]),
        decreases targets.len() - t,
    {
        let list = &targets[t].files;
        proof {
            use_type_invariant(list);
            assert(files[t as int] == list@);
        }
        t += 1;
    }
    let unsorted = shipped(targets);
    let list = order::sort(unsorted);
    proof {
        let f = |s: Shipped| entry_of(s);
        order::lemma_map_multiset(list@, unsorted@, f);
        assert(entries_of(list@) =~= list@.map_values(f));
        assert(entries_of(unsorted@) =~= unsorted@.map_values(f));
        lemma_complete(files, list@);
        assert forall|i: int| 0 <= i < list.len() implies (#[trigger] list@[i]).key@
            == filelist::stripped(list@[i].spelled@) by {
            assert(list@.to_multiset().count(list@[i]) > 0);
            assert(unsorted@.contains(list@[i]));
            let k = choose|k: int| 0 <= k < unsorted.len() && unsorted@[k] == list@[i];
            assert(unsorted@[k].key@ == filelist::stripped(unsorted@[k].spelled@));
        }
    }
    let unordered = expand(targets, &list);
    let found = order::sort(unordered);
    proof {
        let g = |c: Collision| c@;
        order::lemma_map_multiset(found@, unordered@, g);
        let views = collision_views(found@);
        assert(views =~= found@.map_values(g));
        assert(collision_views(unordered@) =~= unordered@.map_values(g));
        assert forall|i: int, j: int| 0 <= i < j < views.len() implies pair_le(
            #[trigger] views[i],
            #[trigger] views[j],
        ) by {
            assert(!found@[j].precedes(found@[i]));
        }
        lemma_sorted_rows(files, entries_of(list@), views);
    }
    found
}

} // verus!
