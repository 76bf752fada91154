//! Sorting.

use vstd::prelude::*;

use crate::text;

verus! {

broadcast use vstd::seq_lib::group_to_multiset_ensures;

/// A type whose values can be put in order.
///
/// `precedes` is strict. Two values neither of which precedes the other share one rank, and
/// ranks are in a line.
pub trait Ordered: Sized {
    /// Whether `self` comes strictly before `other`.
    spec fn precedes(self, other: Self) -> bool;

    /// Two values do not precede each other.
    proof fn asymmetric(a: Self, b: Self)
        requires
            a.precedes(b),
        ensures
            !b.precedes(a),
    ;

    /// Not coming before is transitive.
    proof fn transitive(a: Self, b: Self, c: Self)
        requires
            !b.precedes(a),
            !c.precedes(b),
        ensures
            !c.precedes(a),
    ;

    /// Whether `self` comes strictly before `other`.
    fn before(&self, other: &Self) -> (r: bool)
        ensures
            r == self.precedes(*other),
    ;
}

/// No value precedes an earlier one.
pub open spec fn sorted<T: Ordered>(s: Seq<T>) -> bool {
    forall|i: int, j: int| 0 <= i < j < s.len() ==> !(#[trigger] s[j]).precedes(#[trigger] s[i])
}

/// Sorted, or sorted backwards.
spec fn directed<T: Ordered>(s: Seq<T>, up: bool) -> bool {
    forall|i: int, j: int|
        0 <= i < j < s.len() ==> if up {
            !(#[trigger] s[j]).precedes(#[trigger] s[i])
        } else {
            !s[i].precedes(s[j])
        }
}

/// `x` may come before `y` in the direction `up`.
spec fn may_lead<T: Ordered>(x: T, y: T, up: bool) -> bool {
    if up {
        !y.precedes(x)
    } else {
        !x.precedes(y)
    }
}

/// Every value of `a` may come before every value of `b` in the direction `up`.
spec fn leads<T: Ordered>(a: Seq<T>, b: Seq<T>, up: bool) -> bool {
    forall|i: int, j: int|
        0 <= i < a.len() && 0 <= j < b.len() ==> may_lead(#[trigger] a[i], #[trigger] b[j], up)
}

/// The last value of two lists sorted the other way that is to come next.
fn from_first<T: Ordered>(a: &Vec<T>, b: &Vec<T>, up: bool) -> (r: bool)
    requires
        a.len() > 0 || b.len() > 0,
    ensures
        r ==> a.len() > 0 && (b.len() > 0 ==> may_lead(a@.last(), b@.last(), up)),
        !r ==> b.len() > 0 && (a.len() > 0 ==> may_lead(b@.last(), a@.last(), up)),
{
    if a.len() == 0 {
        false
    } else if b.len() == 0 {
        true
    } else if up {
        let r = !b[b.len() - 1].before(&a[a.len() - 1]);
        proof {
            if !r {
                T::asymmetric(b@.last(), a@.last());
            }
        }
        r
    } else {
        let r = !a[a.len() - 1].before(&b[b.len() - 1]);
        proof {
            if !r {
                T::asymmetric(a@.last(), b@.last());
            }
        }
        r
    }
}

/// Taking the last value `x` of `a` keeps what [`merge`] needs.
proof fn lemma_merge_step<T: Ordered>(out: Seq<T>, a: Seq<T>, b: Seq<T>, up: bool)
    requires
        directed(a, !up),
        directed(b, !up),
        directed(out, up),
        leads(out, a, up),
        leads(out, b, up),
        a.len() > 0,
        b.len() > 0 ==> may_lead(a.last(), b.last(), up),
    ensures
        directed(out.push(a.last()), up),
        directed(a.drop_last(), !up),
        leads(out.push(a.last()), a.drop_last(), up),
        leads(out.push(a.last()), b, up),
{
    let x = a.last();
    let next = out.push(x);
    let rest = a.drop_last();
    assert forall|i: int, j: int| 0 <= i < next.len() && 0 <= j < rest.len() implies may_lead(
        #[trigger] next[i],
        #[trigger] rest[j],
        up,
    ) by {
        assert(rest[j] == a[j]);
        if i < out.len() {
            assert(may_lead(out[i], a[j], up));
        } else {
            assert(a[a.len() - 1] == x);
        }
    }
    assert forall|i: int, j: int| 0 <= i < next.len() && 0 <= j < b.len() implies may_lead(
        #[trigger] next[i],
        #[trigger] b[j],
        up,
    ) by {
        if i < out.len() {
            assert(may_lead(out[i], b[j], up));
        } else if j < b.len() - 1 {
            assert(may_lead(x, b.last(), up));
            assert(b[b.len() - 1] == b.last());
            if up {
                T::transitive(x, b.last(), b[j]);
            } else {
                T::transitive(b[j], b.last(), x);
            }
        }
    }
    assert forall|i: int, j: int| 0 <= i < j < next.len() implies if up {
        !(#[trigger] next[j]).precedes(#[trigger] next[i])
    } else {
        !next[i].precedes(next[j])
    } by {
        if j == out.len() {
            assert(may_lead(out[i], a[a.len() - 1], up));
        }
    }
}

/// Merges two lists sorted backwards (in the direction `up`) into one sorted list.
fn merge<T: Ordered>(a: Vec<T>, b: Vec<T>, up: bool) -> (out: Vec<T>)
    requires
        directed(a@, !up),
        directed(b@, !up),
    ensures
        directed(out@, up),
        out@.to_multiset() == a@.to_multiset().add(b@.to_multiset()),
{
    let mut a = a;
    let mut b = b;
    let ghost whole = a@.to_multiset().add(b@.to_multiset());
    let mut out: Vec<T> = Vec::new();
    assert(whole =~= out@.to_multiset().add(a@.to_multiset()).add(b@.to_multiset()));
    while a.len() > 0 || b.len() > 0
        invariant
            directed(a@, !up),
            directed(b@, !up),
            directed(out@, up),
            leads(out@, a@, up),
            leads(out@, b@, up),
            whole =~= out@.to_multiset().add(a@.to_multiset()).add(b@.to_multiset()),
        decreases a.len() + b.len(),
    {
        let ghost was_a = a@;
        let ghost was_b = b@;
        let ghost was = out@;
        if from_first(&a, &b, up) {
            if let Some(x) = a.pop() {
                out.push(x);
                proof {
                    lemma_merge_step(was, was_a, was_b, up);
                    assert(was_a =~= a@.push(x));
                    assert(was_a.to_multiset() =~= a@.to_multiset().insert(x));
                    assert(out@.to_multiset() =~= was.to_multiset().insert(x));
                }
            }
        } else {
            if let Some(x) = b.pop() {
                out.push(x);
                proof {
                    lemma_merge_step(was, was_b, was_a, up);
                    assert(was_b =~= b@.push(x));
                    assert(was_b.to_multiset() =~= b@.to_multiset().insert(x));
                    assert(out@.to_multiset() =~= was.to_multiset().insert(x));
                }
            }
        }
    }
    proof {
        assert(a@ =~= Seq::<T>::empty());
        assert(b@ =~= Seq::<T>::empty());
        assert(whole =~= out@.to_multiset());
    }
    out
}

/// Sorts `v` in the direction `up`.
fn sort_directed<T: Ordered>(v: Vec<T>, up: bool) -> (out: Vec<T>)
    ensures
        directed(out@, up),
        out@.to_multiset() == v@.to_multiset(),
    decreases v.len(),
{
    if v.len() <= 1 {
        return v;
    }
    let mut head = v;
    let ghost whole = head@;
    let mid: usize = head.len() / 2;
    let tail = head.split_off(mid);
    proof {
        assert(whole =~= head@ + tail@);
        vstd::seq_lib::lemma_multiset_commutative(head@, tail@);
    }
    let a = sort_directed(head, !up);
    let b = sort_directed(tail, !up);
    merge(a, b, up)
}

/// Sorts `v`: nothing is added or lost, and no value precedes an earlier one.
pub fn sort<T: Ordered>(v: Vec<T>) -> (out: Vec<T>)
    ensures
        sorted(out@),
        out@.to_multiset() == v@.to_multiset(),
{
    sort_directed(v, true)
}

/// Mapping the values of two lists that hold the same values gives lists that hold the same
/// values.
pub proof fn lemma_map_multiset<A, B>(a: Seq<A>, b: Seq<A>, f: spec_fn(A) -> B)
    requires
        a.to_multiset() == b.to_multiset(),
    ensures
        a.map_values(f).to_multiset() == b.map_values(f).to_multiset(),
    decreases a.len(),
{
    assert(a.to_multiset().len() == a.len());
    assert(b.to_multiset().len() == b.len());
    if a.len() > 0 {
        let x = a.last();
        assert(a[a.len() - 1] == x);
        assert(a.to_multiset().count(x) > 0);
        assert(b.contains(x));
        let i = choose|i: int| 0 <= i < b.len() && b[i] == x;
        assert(a.drop_last() =~= a.remove(a.len() - 1));
        lemma_map_multiset(a.drop_last(), b.remove(i), f);
        assert(a.map_values(f).remove(a.len() - 1) =~= a.drop_last().map_values(f));
        assert(b.map_values(f).remove(i) =~= b.remove(i).map_values(f));
        assert(a.map_values(f)[a.len() - 1] == f(x));
        assert(b.map_values(f)[i] == f(x));
        let m = a.map_values(f).to_multiset();
        let n = b.map_values(f).to_multiset();
        assert(m.count(f(x)) > 0);
        assert(n.count(f(x)) > 0);
        assert(m.remove(f(x)) =~= n.remove(f(x)));
        assert(m =~= m.remove(f(x)).insert(f(x)));
        assert(n =~= n.remove(f(x)).insert(f(x)));
    } else {
        assert(a.map_values(f) =~= b.map_values(f));
    }
}

/// Extending a prefix by one value extends its filtered form by that value or by nothing.
pub proof fn lemma_filter_step<A>(s: Seq<A>, i: int, keep: spec_fn(A) -> bool)
    requires
        0 <= i < s.len(),
    ensures
        s.take(i + 1).filter(keep) == if keep(s[i]) {
            s.take(i).filter(keep).push(s[i])
        } else {
            s.take(i).filter(keep)
        },
{
    reveal(Seq::filter);
    assert(s.take(i + 1).drop_last() =~= s.take(i));
}

/// Where neither of two steps goes down, both together do not.
pub proof fn lemma_texts_chain(a: Seq<char>, b: Seq<char>, c: Seq<char>)
    ensures
        !text::text_lt(b, a) && !text::text_lt(c, b) ==> !text::text_lt(c, a),
{
    text::lemma_text_lt_total(a, b);
    text::lemma_text_lt_total(b, c);
    text::lemma_text_lt_total(a, c);
    if text::text_lt(c, a) {
        if text::text_lt(a, b) {
            text::lemma_text_lt_transitive(c, a, b);
        } else if text::text_lt(b, c) {
            text::lemma_text_lt_transitive(b, c, a);
        }
    }
}

impl Ordered for String {
    open spec fn precedes(self, other: Self) -> bool {
        text::text_lt(self@, other@)
    }

    proof fn asymmetric(a: Self, b: Self) {
        text::lemma_text_lt_total(a@, b@);
    }

    proof fn transitive(a: Self, b: Self, c: Self) {
        lemma_texts_chain(a@, b@, c@);
    }

    fn before(&self, other: &Self) -> (r: bool) {
        text::less(self.as_str(), other.as_str())
    }
}

} // verus!
