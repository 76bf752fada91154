//! What a path names.

use vstd::prelude::*;

use crate::laws::lists::lemma_filter_push;
use crate::paths::{components, components_key, key_of, names, start_key};
use crate::text;

verus! {

proof fn lemma_filter_add<A>(a: Seq<A>, b: Seq<A>, p: spec_fn(A) -> bool)
    ensures
        (a + b).filter(p) == a.filter(p) + b.filter(p),
    decreases b.len(),
{
    if b.len() == 0 {
        reveal(Seq::filter);
        assert(a + b =~= a);
        assert(b.filter(p) =~= Seq::<A>::empty());
        assert(a.filter(p) + b.filter(p) =~= a.filter(p));
    } else {
        let fewer = b.drop_last();
        lemma_filter_add(a, fewer, p);
        lemma_filter_push(a + fewer, b.last(), p);
        lemma_filter_push(fewer, b.last(), p);
        assert((a + fewer).push(b.last()) =~= a + b);
        assert(fewer.push(b.last()) =~= b);
        if p(b.last()) {
            assert((a.filter(p) + fewer.filter(p)).push(b.last()) =~= a.filter(p) + fewer.filter(
                p,
            ).push(b.last()));
        }
    }
}

proof fn lemma_split_add(a: Seq<char>, b: Seq<char>)
    ensures
        text::split(a.push('/') + b, '/') == text::split(a, '/') + text::split(b, '/'),
    decreases a.len(),
{
    let whole = a.push('/') + b;
    let at = text::first(a, '/');
    text::lemma_first(a, '/');
    if at < a.len() {
        let rest = a.skip(at + 1);
        assert(whole[at] == '/');
        assert forall|j: int| 0 <= j < at implies whole[j] != '/' by {
            assert(whole[j] == a[j]);
        }
        text::lemma_first_unique(whole, '/', at);
        lemma_split_add(rest, b);
        assert(whole.skip(at + 1) =~= rest.push('/') + b);
        assert(whole.take(at) =~= a.take(at));
        assert(seq![a.take(at)] + (text::split(rest, '/') + text::split(b, '/')) =~= seq![
            a.take(at),
        ] + text::split(rest, '/') + text::split(b, '/'));
    } else {
        assert(!a.contains('/')) by {
            if a.contains('/') {
                let j = choose|j: int| 0 <= j < a.len() && a[j] == '/';
                assert(a[j] != '/');
            }
        }
        text::lemma_split_head(a, '/', b);
        text::lemma_split_whole(a, '/');
    }
}

/// A path is made of what stands between its slashes. Nothing and `.` are no parts of it, and `..`
/// is a part but no name.
pub proof fn a_path_is_its_parts(a: Seq<char>, b: Seq<char>, piece: Seq<char>)
    requires
        !piece.contains('/'),
    ensures
        components(a.push('/') + b) == components(a) + components(b),
        names(a.push('/') + b) == names(a) + names(b),
        components(piece) == if piece.len() == 0 || piece == seq!['.'] {
            Seq::<Seq<char>>::empty()
        } else {
            seq![piece]
        },
        names(piece) == if piece.len() == 0 || piece == seq!['.'] || piece == seq!['.', '.'] {
            Seq::<Seq<char>>::empty()
        } else {
            seq![piece]
        },
{
    let keep = |piece: Seq<char>| crate::paths::is_component(piece);
    let named = |piece: Seq<char>| piece != seq!['.', '.'];
    lemma_split_add(a, b);
    lemma_filter_add(text::split(a, '/'), text::split(b, '/'), keep);
    lemma_filter_add(components(a), components(b), named);
    text::lemma_split_whole(piece, '/');
    let none = Seq::<Seq<char>>::empty();
    reveal(Seq::filter);
    assert(none.filter(keep) =~= none);
    assert(none.filter(named) =~= none);
    lemma_filter_push(none, piece, keep);
    lemma_filter_push(none, piece, named);
    assert(none.push(piece) =~= seq![piece]);
}

/// Whether no part of a path holds the character that no path holds.
pub open spec fn is_spelled(pieces: Seq<Seq<char>>) -> bool {
    forall|i: int| 0 <= i < pieces.len() ==> !(#[trigger] pieces[i]).contains('\u{0}')
}

/// How a path starts: at the root, at `.`, or neither.
pub open spec fn start_of(path: Seq<char>) -> int {
    if path.len() > 0 && path[0] == '/' {
        0
    } else if path == seq!['.'] || text::starts_with(path, seq!['.', '/']) {
        1
    } else {
        2
    }
}

spec fn one_key(piece: Seq<char>) -> Seq<char> {
    crate::paths::component_key(piece)
}

proof fn lemma_one_key(piece: Seq<char>)
    requires
        !piece.contains('\u{0}'),
    ensures
        one_key(piece).len() >= 2,
        one_key(piece).last() == '\u{0}',
        forall|i: int|
            0 <= i < one_key(piece).len() - 1 ==> #[trigger] one_key(piece)[i] != '\u{0}',
        one_key(piece)[0] == '\u{3}' || one_key(piece)[0] == '\u{4}',
{
    let key = one_key(piece);
    assert forall|i: int| 0 <= i < key.len() - 1 implies #[trigger] key[i] != '\u{0}' by {
        if piece != seq!['.', '.'] && i > 0 {
            assert(key[i] == piece[i - 1]);
            assert(piece.contains(piece[i - 1]));
        }
    }
}

proof fn lemma_same_piece(p: Seq<char>, q: Seq<char>)
    requires
        one_key(p) == one_key(q),
    ensures
        p == q,
{
    let a = one_key(p);
    let b = one_key(q);
    let dots = seq!['.', '.'];
    if p != dots && q != dots {
        assert(a.subrange(1, a.len() - 1) =~= p);
        assert(b.subrange(1, b.len() - 1) =~= q);
    } else {
        assert(a[0] == b[0]);
    }
}

proof fn lemma_keys_end(pieces: Seq<Seq<char>>)
    requires
        is_spelled(pieces),
    ensures
        pieces.len() == 0 <==> components_key(pieces).len() == 0,
        pieces.len() > 0 ==> components_key(pieces).last() == '\u{0}',
        pieces.len() > 0 ==> components_key(pieces)[0] == '\u{3}' || components_key(pieces)[0]
            == '\u{4}',
    decreases pieces.len(),
{
    if pieces.len() > 0 {
        let fewer = pieces.drop_last();
        assert(is_spelled(fewer)) by {
            assert forall|i: int| 0 <= i < fewer.len() implies !(#[trigger] fewer[i]).contains(
                '\u{0}',
            ) by {
                assert(fewer[i] == pieces[i]);
            }
        }
        lemma_keys_end(fewer);
        assert(!pieces[pieces.len() - 1].contains('\u{0}'));
        lemma_one_key(pieces.last());
        if fewer.len() > 0 {
            assert(components_key(pieces)[0] == components_key(fewer)[0]);
        } else {
            assert(components_key(pieces)[0] == one_key(pieces.last())[0]);
        }
    }
}

proof fn lemma_same_pieces(a: Seq<Seq<char>>, b: Seq<Seq<char>>)
    requires
        is_spelled(a),
        is_spelled(b),
        components_key(a) == components_key(b),
    ensures
        a == b,
    decreases a.len(),
{
    lemma_keys_end(a);
    lemma_keys_end(b);
    if a.len() == 0 || b.len() == 0 {
        assert(a =~= b);
    } else {
        let s = a.drop_last();
        let t = b.drop_last();
        assert(is_spelled(s)) by {
            assert forall|i: int| 0 <= i < s.len() implies !(#[trigger] s[i]).contains('\u{0}') by {
                assert(s[i] == a[i]);
            }
        }
        assert(is_spelled(t)) by {
            assert forall|i: int| 0 <= i < t.len() implies !(#[trigger] t[i]).contains('\u{0}') by {
                assert(t[i] == b[i]);
            }
        }
        lemma_keys_end(s);
        lemma_keys_end(t);
        assert(!a[a.len() - 1].contains('\u{0}'));
        assert(!b[b.len() - 1].contains('\u{0}'));
        lemma_one_key(a.last());
        lemma_one_key(b.last());
        let whole = components_key(a);
        let n = components_key(s).len();
        let m = components_key(t).len();
        if n < m {
            assert(whole[m - 1] == components_key(t).last());
            assert(whole[m - 1] == one_key(a.last())[m - 1 - n]);
            assert(m - 1 - n < one_key(a.last()).len() - 1);
        }
        if m < n {
            assert(whole[n - 1] == components_key(s).last());
            assert(components_key(b)[n - 1] == one_key(b.last())[n - 1 - m]);
            assert(n - 1 - m < one_key(b.last()).len() - 1);
        }
        assert(n == m);
        assert(whole.take(n as int) =~= components_key(s));
        assert(components_key(b).take(n as int) =~= components_key(t));
        assert(whole.skip(n as int) =~= one_key(a.last()));
        assert(components_key(b).skip(n as int) =~= one_key(b.last()));
        lemma_same_piece(a.last(), b.last());
        lemma_same_pieces(s, t);
        assert(a =~= s.push(a.last()));
        assert(b =~= t.push(b.last()));
    }
}

/// Two paths are one where they start alike and have the same parts, however they are spelled.
pub proof fn paths_are_one_by_their_parts(a: Seq<char>, b: Seq<char>)
    requires
        is_spelled(components(a)),
        is_spelled(components(b)),
    ensures
        key_of(a) == key_of(b) <==> start_of(a) == start_of(b) && components(a) == components(b),
{
    let dot = seq!['.', '/'];
    lemma_start(a);
    lemma_start(b);
    lemma_keys_end(components(a));
    lemma_keys_end(components(b));
    let n = start_key(a).len() as int;
    if key_of(a) == key_of(b) {
        if start_key(a).len() > 0 {
            assert(key_of(a)[0] == start_key(a)[0]);
        } else if components(a).len() > 0 {
            assert(key_of(a)[0] == components_key(components(a))[0]);
        }
        if start_key(b).len() > 0 {
            assert(key_of(b)[0] == start_key(b)[0]);
        } else if components(b).len() > 0 {
            assert(key_of(b)[0] == components_key(components(b))[0]);
        }
        assert(start_of(a) == start_of(b));
        assert(key_of(a).skip(n) =~= components_key(components(a)));
        assert(key_of(b).skip(n) =~= components_key(components(b)));
        lemma_same_pieces(components(a), components(b));
    }
}

proof fn lemma_start(path: Seq<char>)
    ensures
        start_key(path) == if start_of(path) == 0 {
            seq!['\u{1}', '\u{0}']
        } else if start_of(path) == 1 {
            seq!['\u{2}', '\u{0}']
        } else {
            Seq::<char>::empty()
        },
{
    let dot = seq!['.', '/'];
    if path.len() >= 2 {
        assert(path.take(2) =~= seq![path[0], path[1]]);
        if text::starts_with(path, dot) {
            assert(path.take(2)[0] == '.' && path.take(2)[1] == '/');
        }
        if path[0] == '.' && path[1] == '/' {
            assert(path.take(2) =~= dot);
        }
    }
    if path.len() == 1 && path[0] == '.' {
        assert(path =~= seq!['.']);
    }
}

} // verus!
