//! Package file lists, and the comparisons conflict detection makes between them.
//!
//! A list holds paths relative to the installation root, a directory with a trailing `/`. It is
//! sorted by the bytes of the paths, so a lookup is a binary search.

use vstd::prelude::*;
use vstd::string::*;

use crate::order;
use crate::table;
use crate::text;

verus! {

broadcast use crate::text::group_lists;

/// A package's paths, sorted.
#[derive(Debug)]
pub struct FileList {
    entries: Vec<String>,
}

/// `path` without one trailing `/`.
pub open spec fn stripped(path: Seq<char>) -> Seq<char> {
    if names_directory(path) {
        path.drop_last()
    } else {
        path
    }
}

/// Whether `path` is spelled as a directory.
pub open spec fn names_directory(path: Seq<char>) -> bool {
    path.len() > 0 && path.last() == '/'
}

/// `path` without its trailing `/`. Exactly one is removed.
pub fn strip_dir(path: &str) -> (r: &str)
    ensures
        r@ == stripped(path@),
{
    let n = path.unicode_len();
    if n > 0 && path.get_char(n - 1) == '/' {
        let r = path.substring_char(0, n - 1);
        assert(r@ =~= path@.drop_last());
        r
    } else {
        path
    }
}

/// Whether `path` is spelled as a directory.
pub fn is_directory(path: &str) -> (r: bool)
    ensures
        r == names_directory(path@),
{
    let n = path.unicode_len();
    n > 0 && path.get_char(n - 1) == '/'
}

/// Compares two paths as if neither had a trailing `/`.
pub fn pathcmp(left: &str, right: &str) -> (r: std::cmp::Ordering)
    ensures
        match r {
            std::cmp::Ordering::Less => text::text_lt(stripped(left@), stripped(right@)),
            std::cmp::Ordering::Equal => stripped(left@) == stripped(right@),
            std::cmp::Ordering::Greater => text::text_lt(stripped(right@), stripped(left@)),
        },
{
    let a = strip_dir(left);
    let b = strip_dir(right);
    proof {
        text::lemma_text_lt_total(a@, b@);
    }
    if text::less(a, b) {
        std::cmp::Ordering::Less
    } else if text::same(a, b) {
        std::cmp::Ordering::Equal
    } else {
        std::cmp::Ordering::Greater
    }
}

impl View for FileList {
    type V = Seq<Seq<char>>;

    /// The paths, in order.
    closed spec fn view(&self) -> Seq<Seq<char>> {
        text::texts(self.entries@)
    }
}

/// Whether `entry` and some path of `other` name one place, and not both as a directory.
pub open spec fn collides(entry: Seq<char>, other: Seq<Seq<char>>) -> bool {
    exists|j: int|
        0 <= j < other.len() && stripped(#[trigger] other[j]) == stripped(entry) && !(
        names_directory(entry) && names_directory(other[j]))
}

/// The paths of `a` that `b` does not hold.
pub open spec fn difference(a: Seq<Seq<char>>, b: Seq<Seq<char>>) -> Seq<Seq<char>> {
    a.filter(|entry: Seq<char>| !b.contains(entry))
}

/// The paths of `a` that collide with a path of `b`.
pub open spec fn intersection(a: Seq<Seq<char>>, b: Seq<Seq<char>>) -> Seq<Seq<char>> {
    a.filter(|entry: Seq<char>| collides(entry, b))
}

/// The two spellings of a place that decide whether `entry` collides.
proof fn lemma_collides(entry: Seq<char>, other: Seq<Seq<char>>)
    ensures
        collides(entry, other) <==> {
            ||| other.contains(stripped(entry)) && !names_directory(stripped(entry))
            ||| other.contains(stripped(entry).push('/')) && !names_directory(entry)
        },
{
    let place = stripped(entry);
    if collides(entry, other) {
        let j = choose|j: int|
            0 <= j < other.len() && stripped(#[trigger] other[j]) == stripped(entry) && !(
            names_directory(entry) && names_directory(other[j]));
        if names_directory(other[j]) {
            assert(other[j] =~= place.push('/'));
        }
    }
    if other.contains(place) && !names_directory(place) {
        let j = choose|j: int| 0 <= j < other.len() && other[j] == place;
        assert(stripped(other[j]) == place);
        assert(collides(entry, other));
    }
    if other.contains(place.push('/')) && !names_directory(entry) {
        let j = choose|j: int| 0 <= j < other.len() && other[j] == place.push('/');
        assert(place.push('/').drop_last() =~= place);
        assert(stripped(other[j]) == place);
        assert(collides(entry, other));
    }
}

impl FileList {
    /// The paths do not descend.
    #[verifier::type_invariant]
    pub open spec fn wf(self) -> bool {
        table::ascending(self@)
    }

    /// The list of `paths`, sorted.
    pub fn new(paths: Vec<String>) -> (r: Self)
        ensures
            r.wf(),
            r@.to_multiset() == text::texts(paths@).to_multiset(),
    {
        let entries = order::sort(paths);
        proof {
            let f = |s: String| s@;
            order::lemma_map_multiset(entries@, paths@, f);
            assert(entries@.map_values(f) =~= text::texts(entries@));
            assert(paths@.map_values(f) =~= text::texts(paths@));
            let s = text::texts(entries@);
            assert forall|i: int, j: int| 0 <= i < j < s.len() implies text::text_le(
                #[trigger] s[i],
                #[trigger] s[j],
            ) by {
                assert(!order::Ordered::precedes(entries@[j], entries@[i]));
                text::lemma_text_lt_total(s[i], s[j]);
            }
        }
        FileList { entries }
    }

    /// The paths, in order.
    pub fn iter(&self) -> (r: Vec<&str>)
        ensures
            text::spelled(r@) == self@,
    {
        let mut out: Vec<&str> = Vec::new();
        let mut i: usize = 0;
        while i < self.entries.len()
            invariant
                i <= self.entries.len(),
                text::spelled(out@) == self@.take(i as int),
            decreases self.entries.len() - i,
        {
            out.push(self.entries[i].as_str());
            assert(self@.take(i + 1) =~= self@.take(i as int).push(self@[i as int]));
            i += 1;
        }
        assert(self@.take(self@.len() as int) =~= self@);
        out
    }

    /// The path at `i`.
    pub fn get(&self, i: usize) -> (r: &str)
        requires
            i < self@.len(),
        ensures
            r@ == self@[i as int],
    {
        self.entries[i].as_str()
    }

    /// How many paths the list holds.
    pub fn len(&self) -> (n: usize)
        ensures
            n == self@.len(),
    {
        self.entries.len()
    }

    /// Whether the list holds nothing.
    pub fn is_empty(&self) -> (r: bool)
        ensures
            r == (self@.len() == 0),
    {
        self.entries.len() == 0
    }

    /// Whether the list holds `path`, spelled exactly so.
    pub fn contains(&self, path: &str) -> (r: bool)
        ensures
            r == self@.contains(path@),
    {
        proof {
            use_type_invariant(self);
        }
        table::listed(&self.entries, path)
    }

    /// The paths `other` does not hold, compared exactly, in order.
    pub fn difference(&self, other: &Self) -> (r: Vec<&str>)
        ensures
            text::spelled(r@) == difference(self@, other@),
    {
        let mut out: Vec<&str> = Vec::new();
        let mut i: usize = 0;
        let ghost keep = |entry: Seq<char>| !other@.contains(entry);
        proof {
            reveal(Seq::filter);
            assert(text::spelled(out@) =~= self@.take(0).filter(keep));
        }
        while i < self.entries.len()
            invariant
                i <= self.entries.len(),
                keep == (|entry: Seq<char>| !other@.contains(entry)),
                text::spelled(out@) == self@.take(i as int).filter(keep),
            decreases self.entries.len() - i,
        {
            let entry = self.entries[i].as_str();
            proof {
                order::lemma_filter_step(self@, i as int, keep);
            }
            if !other.contains(entry) {
                out.push(entry);
            }
            i += 1;
        }
        assert(self@.take(self@.len() as int) =~= self@);
        out
    }

    /// The paths that collide with a path of `other`, in order.
    ///
    /// A trailing `/` is ignored in the comparison, and two directories never collide.
    pub fn intersection(&self, other: &Self) -> (r: Vec<&str>)
        ensures
            text::spelled(r@) == intersection(self@, other@),
    {
        let mut out: Vec<&str> = Vec::new();
        let mut i: usize = 0;
        let ghost keep = |entry: Seq<char>| collides(entry, other@);
        proof {
            reveal(Seq::filter);
            assert(text::spelled(out@) =~= self@.take(0).filter(keep));
        }
        while i < self.entries.len()
            invariant
                i <= self.entries.len(),
                keep == (|entry: Seq<char>| collides(entry, other@)),
                text::spelled(out@) == self@.take(i as int).filter(keep),
            decreases self.entries.len() - i,
        {
            let entry = self.entries[i].as_str();
            proof {
                order::lemma_filter_step(self@, i as int, keep);
            }
            if other.blocks(entry) {
                out.push(entry);
            }
            i += 1;
        }
        assert(self@.take(self@.len() as int) =~= self@);
        out
    }

    /// Whether `entry` collides with a path of the list.
    fn blocks(&self, entry: &str) -> (r: bool)
        ensures
            r == collides(entry@, self@),
    {
        proof {
            lemma_collides(entry@, self@);
        }
        let place = strip_dir(entry);
        if self.contains(place) && !is_directory(place) {
            return true;
        }
        if is_directory(entry) {
            return false;
        }
        let mut slashed = place.to_owned();
        slashed.push('/');
        self.contains(slashed.as_str())
    }
}

impl Clone for FileList {
    /// A list of the same paths.
    fn clone(&self) -> (r: Self)
        ensures
            r@ == self@,
            r.wf(),
    {
        proof {
            use_type_invariant(self);
        }
        let mut entries: Vec<String> = Vec::new();
        let mut i: usize = 0;
        while i < self.entries.len()
            invariant
                i <= self.entries.len(),
                text::texts(entries@) == self@.take(i as int),
            decreases self.entries.len() - i,
        {
            entries.push(self.entries[i].clone());
            assert(self@.take(i + 1) =~= self@.take(i as int).push(self@[i as int]));
            i += 1;
        }
        assert(self@.take(self@.len() as int) =~= self@);
        FileList { entries }
    }
}

impl Default for FileList {
    /// The empty list.
    fn default() -> (r: Self)
        ensures
            r@ == Seq::<Seq<char>>::empty(),
            r.wf(),
    {
        let r = FileList { entries: Vec::new() };
        assert(r@ =~= Seq::<Seq<char>>::empty());
        r
    }
}

} // verus!
