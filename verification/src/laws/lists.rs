//! Lists, as the laws speak of them.

use vstd::prelude::*;

verus! {

/// What a filter keeps: what the list holds and the test accepts.
pub proof fn lemma_filter_holds<A>(s: Seq<A>, p: spec_fn(A) -> bool, a: A)
    ensures
        s.filter(p).contains(a) <==> s.contains(a) && p(a),
    decreases s.len(),
{
    reveal(Seq::filter);
    if s.len() > 0 {
        let fewer = s.drop_last();
        let last = s.last();
        lemma_filter_holds(fewer, p, a);
        assert(s =~= fewer.push(last));
        lemma_push_holds(fewer, last, a);
        lemma_push_holds(fewer.filter(p), last, a);
    }
}

/// What a filter keeps of one value more.
pub proof fn lemma_filter_push<A>(s: Seq<A>, last: A, p: spec_fn(A) -> bool)
    ensures
        s.push(last).filter(p) == if p(last) {
            s.filter(p).push(last)
        } else {
            s.filter(p)
        },
{
    reveal(Seq::filter);
    assert(s.push(last).drop_last() =~= s);
}

/// What a list holds once it has one more.
pub proof fn lemma_push_holds<A>(s: Seq<A>, last: A, a: A)
    ensures
        s.push(last).contains(a) <==> s.contains(a) || a == last,
{
    if s.contains(a) {
        let i = choose|i: int| 0 <= i < s.len() && s[i] == a;
        assert(s.push(last)[i] == a);
    }
    assert(s.push(last)[s.len() as int] == last);
}

/// What two lists hold together.
pub proof fn lemma_add_holds<A>(s: Seq<A>, t: Seq<A>, a: A)
    ensures
        (s + t).contains(a) <==> s.contains(a) || t.contains(a),
{
    vstd::seq_lib::lemma_seq_concat_contains_all_elements(s, t, a);
}

/// What a list holds behind its first value.
pub proof fn lemma_skip_holds<A>(s: Seq<A>, a: A)
    requires
        s.len() > 0,
    ensures
        s.contains(a) <==> a == s[0] || s.skip(1).contains(a),
{
    if s.skip(1).contains(a) {
        let i = choose|i: int| 0 <= i < s.skip(1).len() && s.skip(1)[i] == a;
        assert(s[i + 1] == a);
    }
    if s.contains(a) {
        let i = choose|i: int| 0 <= i < s.len() && s[i] == a;
        if i > 0 {
            assert(s.skip(1)[i - 1] == a);
        }
    }
}

/// What `f` makes of the numbers below `n` that a test accepts, in ascending order.
pub open spec fn picks<A>(n: int, p: spec_fn(int) -> bool, f: spec_fn(int) -> A) -> Seq<A>
    decreases n,
{
    if n <= 0 {
        Seq::empty()
    } else if p(n - 1) {
        picks(n - 1, p, f).push(f(n - 1))
    } else {
        picks(n - 1, p, f)
    }
}

/// Each number that the test accepts is there, and nothing else is.
pub proof fn lemma_picks_hold<A>(n: int, p: spec_fn(int) -> bool, f: spec_fn(int) -> A, a: A)
    ensures
        picks(n, p, f).contains(a) <==> exists|i: int| 0 <= i < n && p(i) && a == #[trigger] f(i),
    decreases n,
{
    if n > 0 {
        lemma_picks_hold(n - 1, p, f, a);
        lemma_push_holds(picks(n - 1, p, f), f(n - 1), a);
        if picks(n - 1, p, f).contains(a) {
            let i = choose|i: int| 0 <= i < n - 1 && p(i) && a == #[trigger] f(i);
            assert(a == f(i));
        }
    }
}

/// Tests and functions that agree on the numbers below `n` pick the same.
pub proof fn lemma_picks_agree<A>(
    n: int,
    p: spec_fn(int) -> bool,
    q: spec_fn(int) -> bool,
    f: spec_fn(int) -> A,
    g: spec_fn(int) -> A,
)
    requires
        forall|i: int| 0 <= i < n ==> #[trigger] p(i) == q(i),
        forall|i: int| 0 <= i < n && p(i) ==> #[trigger] f(i) == g(i),
    ensures
        picks(n, p, f) == picks(n, q, g),
    decreases n,
{
    if n > 0 {
        lemma_picks_agree(n - 1, p, q, f, g);
        assert(p(n - 1) == q(n - 1));
    }
}

} // verus!
