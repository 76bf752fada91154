//! Text as sequences of characters: the searches, splits, numbers and order the rest of the
//! crate reads and writes its formats with.
//!
//! Every function here works on `&[char]`, and its contract is stated over `Seq<char>`, which is
//! also the view of `str` and `String`. A format is read by turning the text into characters once
//! and cutting slices out of it, so no function has to reason about byte offsets.

use vstd::prelude::*;
use vstd::slice::slice_subrange;
use vstd::string::*;

verus! {

broadcast use vstd::string::group_string_axioms;

/// `<str as PartialEq>::eq` compares two texts character by character.
pub assume_specification[ <str as PartialEq>::eq ](s: &str, other: &str) -> (res: bool)
    ensures
        res == (s@ == other@),
;

/// `String::push` appends one character.
pub assume_specification[ String::push ](s: &mut String, c: char)
    ensures
        final(s)@ == old(s)@.push(c),
;

/// `String::push_str` appends a text.
pub assume_specification[ String::push_str ](s: &mut String, t: &str)
    ensures
        final(s)@ == old(s)@ + t@,
;

/// The text that [`lossy`] gives for bytes.
pub uninterp spec fn lossy_text(bytes: Seq<u8>) -> Seq<char>;

/// `String::from_utf8_lossy` decodes bytes. Bytes that encode a text give that text. Where some are
/// no UTF-8 the result is a function of the bytes; which characters stand for them is left
/// unsaid.
#[verifier::external_body]
pub(crate) fn lossy(bytes: &[u8]) -> (r: String)
    ensures
        r@ == lossy_text(bytes@),
        vstd::utf8::valid_utf8(bytes@) ==> r@ == vstd::utf8::decode_utf8(bytes@),
{
    String::from_utf8_lossy(bytes).into_owned()
}

/// `String::from_utf8` decodes bytes: it gives the text they encode, and refuses bytes that are
/// no UTF-8.
#[verifier::external_body]
pub(crate) fn decoded(bytes: Vec<u8>) -> (r: Option<String>)
    ensures
        match r {
            Some(s) => vstd::utf8::encode_utf8(s@) == bytes@,
            None => !vstd::utf8::valid_utf8(bytes@),
        },
{
    String::from_utf8(bytes).ok()
}

/// The views of a list of texts.
pub open spec fn texts(list: Seq<String>) -> Seq<Seq<char>> {
    Seq::new(list.len(), |i: int| list[i]@)
}

/// The views of a list of character slices.
pub open spec fn pieces(list: Seq<&[char]>) -> Seq<Seq<char>> {
    Seq::new(list.len(), |i: int| list[i]@)
}

/// The views of a list of borrowed texts.
pub open spec fn spelled(list: Seq<&str>) -> Seq<Seq<char>> {
    Seq::new(list.len(), |i: int| list[i]@)
}

/// The view of a text that may be missing.
pub open spec fn maybe(s: Option<String>) -> Option<Seq<char>> {
    match s {
        Some(s) => Some(s@),
        None => None,
    }
}

/// The view of a borrowed text that may be missing.
pub open spec fn maybe_str(s: Option<&str>) -> Option<Seq<char>> {
    match s {
        Some(s) => Some(s@),
        None => None,
    }
}

/// Whether two texts are both there and hold the same characters.
pub fn both_same(a: Option<&str>, b: Option<&str>) -> (r: bool)
    ensures
        r == (a is Some && maybe_str(a) == maybe_str(b)),
{
    match (a, b) {
        (Some(a), Some(b)) => same(a, b),
        _ => false,
    }
}

/// Appending a text appends its view.
pub broadcast proof fn lemma_texts_push(list: Seq<String>, s: String)
    ensures
        #[trigger] texts(list.push(s)) == texts(list).push(s@),
{
    assert(texts(list.push(s)) =~= texts(list).push(s@));
}

/// Appending a slice appends its view.
pub broadcast proof fn lemma_pieces_push(list: Seq<&[char]>, s: &[char])
    ensures
        #[trigger] pieces(list.push(s)) == pieces(list).push(s@),
{
    assert(pieces(list.push(s)) =~= pieces(list).push(s@));
}

/// Appending a borrowed text appends its view.
pub broadcast proof fn lemma_spelled_push(list: Seq<&str>, s: &str)
    ensures
        #[trigger] spelled(list.push(s)) == spelled(list).push(s@),
{
    assert(spelled(list.push(s)) =~= spelled(list).push(s@));
}

/// How the views of a list grow.
pub broadcast group group_lists {
    lemma_texts_push,
    lemma_pieces_push,
    lemma_spelled_push,
}

// ---------------------------------------------------------------------------------------------
// Equality, order and conversion

/// Whether two texts hold the same characters.
pub fn same(a: &str, b: &str) -> (r: bool)
    ensures
        r == (a@ == b@),
{
    *a == *b
}

/// The characters of `s`.
pub fn chars(s: &str) -> (v: Vec<char>)
    ensures
        v@ == s@,
{
    let mut v: Vec<char> = Vec::new();
    for c in it: s.chars()
        invariant
            v@ == s@.take(it.index() as int),
            it.seq() == s@,
    {
        v.push(c);
        assert(s@.take(it.index() as int).push(c) =~= s@.take(it.index() + 1));
    }
    assert(s@.take(s@.len() as int) =~= s@);
    v
}

/// The text `v` spells.
pub fn text(v: &[char]) -> (s: String)
    ensures
        s@ == v@,
{
    let mut s = String::new();
    let mut i: usize = 0;
    while i < v.len()
        invariant
            i <= v.len(),
            s@ == v@.take(i as int),
        decreases v.len() - i,
    {
        s.push(v[i]);
        assert(v@.take(i as int).push(v@[i as int]) =~= v@.take(i + 1));
        i += 1;
    }
    assert(v@.take(v@.len() as int) =~= v@);
    s
}

/// Whether `v` spells `s`.
pub fn spells(v: &[char], s: &str) -> (r: bool)
    ensures
        r == (v@ == s@),
{
    let w = chars(s);
    equal(v, w.as_slice())
}

/// Whether two slices hold the same characters.
pub fn equal(a: &[char], b: &[char]) -> (r: bool)
    ensures
        r == (a@ == b@),
{
    if a.len() != b.len() {
        return false;
    }
    let mut i: usize = 0;
    while i < a.len()
        invariant
            i <= a.len(),
            a.len() == b.len(),
            a@.take(i as int) == b@.take(i as int),
        decreases a.len() - i,
    {
        if a[i] != b[i] {
            assert(a@[i as int] != b@[i as int]);
            return false;
        }
        assert(a@.take(i + 1) =~= a@.take(i as int).push(a@[i as int]));
        assert(b@.take(i + 1) =~= b@.take(i as int).push(b@[i as int]));
        i += 1;
    }
    assert(a@.take(a@.len() as int) =~= a@);
    assert(b@.take(b@.len() as int) =~= b@);
    true
}

/// The order of texts: the first differing character decides, and a proper prefix comes first.
///
/// UTF-8 keeps the order of code points, so this is the order of the encoded bytes too.
pub open spec fn text_lt(a: Seq<char>, b: Seq<char>) -> bool
    decreases a.len(),
{
    if b.len() == 0 {
        false
    } else if a.len() == 0 {
        true
    } else if a[0] != b[0] {
        (a[0] as int) < (b[0] as int)
    } else {
        text_lt(a.skip(1), b.skip(1))
    }
}

/// Equal, or before.
pub open spec fn text_le(a: Seq<char>, b: Seq<char>) -> bool {
    a == b || text_lt(a, b)
}

/// The order is total: of two different texts, exactly one comes first.
pub proof fn lemma_text_lt_total(a: Seq<char>, b: Seq<char>)
    ensures
        a == b ==> !text_lt(a, b),
        a != b ==> (text_lt(a, b) <==> !text_lt(b, a)),
    decreases a.len(),
{
    if a.len() > 0 && b.len() > 0 {
        lemma_text_lt_total(a.skip(1), b.skip(1));
        if a[0] == b[0] && a.skip(1) == b.skip(1) {
            assert(a =~= seq![a[0]] + a.skip(1));
            assert(b =~= seq![b[0]] + b.skip(1));
        }
    } else if a.len() == 0 && b.len() == 0 {
        assert(a =~= b);
    }
}

/// The order is transitive.
pub proof fn lemma_text_lt_transitive(a: Seq<char>, b: Seq<char>, c: Seq<char>)
    requires
        text_lt(a, b),
        text_lt(b, c),
    ensures
        text_lt(a, c),
    decreases a.len(),
{
    if a.len() > 0 && a[0] == b[0] && b[0] == c[0] {
        lemma_text_lt_transitive(a.skip(1), b.skip(1), c.skip(1));
    }
}

/// Whether `a` comes before `b`.
pub fn less(a: &str, b: &str) -> (r: bool)
    ensures
        r == text_lt(a@, b@),
{
    let mut x = a.chars();
    let mut y = b.chars();
    loop
        invariant
            text_lt(a@, b@) == text_lt(
                vstd::std_specs::iter::IteratorSpec::remaining(&x),
                vstd::std_specs::iter::IteratorSpec::remaining(&y),
            ),
            vstd::std_specs::iter::IteratorSpec::decrease(&x) is Some,
        decreases vstd::std_specs::iter::IteratorSpec::decrease(&x)->0,
    {
        let c = match y.next() {
            Some(c) => c,
            None => {
                return false;
            },
        };
        let d = match x.next() {
            Some(d) => d,
            None => {
                return true;
            },
        };
        if d != c {
            return d < c;
        }
    }
}

// ---------------------------------------------------------------------------------------------
// Searching and cutting

/// The index of the first `c` in `s`, or the length of `s` where there is none.
pub open spec fn first(s: Seq<char>, c: char) -> int
    decreases s.len(),
{
    if s.len() == 0 || s[0] == c {
        0
    } else {
        1 + first(s.skip(1), c)
    }
}

/// What [`first`] is, without recursion.
pub proof fn lemma_first(s: Seq<char>, c: char)
    ensures
        0 <= first(s, c) <= s.len(),
        forall|j: int| 0 <= j < first(s, c) ==> s[j] != c,
        first(s, c) < s.len() ==> s[first(s, c)] == c,
    decreases s.len(),
{
    if s.len() > 0 && s[0] != c {
        lemma_first(s.skip(1), c);
        assert forall|j: int| 0 <= j < first(s, c) implies s[j] != c by {
            if j > 0 {
                assert(s[j] == s.skip(1)[j - 1]);
            }
        }
    }
}

/// An index that has the properties of [`first`] is [`first`].
pub proof fn lemma_first_unique(s: Seq<char>, c: char, i: int)
    requires
        0 <= i <= s.len(),
        forall|j: int| 0 <= j < i ==> s[j] != c,
        i < s.len() ==> s[i] == c,
    ensures
        first(s, c) == i,
{
    lemma_first(s, c);
}

/// The index of the first `c` in `s`, or the length of `s` where there is none.
pub fn find(s: &[char], c: char) -> (i: usize)
    ensures
        i == first(s@, c),
        i <= s.len(),
        i < s.len() ==> s@[i as int] == c,
        forall|j: int| 0 <= j < i ==> s@[j] != c,
{
    let mut i: usize = 0;
    while i < s.len() && s[i] != c
        invariant
            i <= s.len(),
            forall|j: int| 0 <= j < i ==> s@[j] != c,
        decreases s.len() - i,
    {
        i += 1;
    }
    proof {
        lemma_first_unique(s@, c, i as int);
    }
    i
}

/// Whether `c` occurs in `s`.
pub fn holds(s: &[char], c: char) -> (r: bool)
    ensures
        r == s@.contains(c),
{
    let i = find(s, c);
    proof {
        if i == s.len() {
            assert(!s@.contains(c));
        } else {
            assert(s@[i as int] == c);
        }
    }
    i < s.len()
}

/// What comes before and after the first `c`.
pub open spec fn split_once(s: Seq<char>, c: char) -> Option<(Seq<char>, Seq<char>)> {
    if first(s, c) < s.len() {
        Some((s.take(first(s, c)), s.skip(first(s, c) + 1)))
    } else {
        None
    }
}

/// Splits `s` at the first `c`, which goes to neither side.
pub fn cut_once<'a>(s: &'a [char], c: char) -> (r: Option<(&'a [char], &'a [char])>)
    ensures
        match r {
            Some((a, b)) => split_once(s@, c) == Some((a@, b@)),
            None => split_once(s@, c) is None,
        },
{
    let i = find(s, c);
    if i < s.len() {
        let a = slice_subrange(s, 0, i);
        let b = slice_subrange(s, i + 1, s.len());
        assert(a@ =~= s@.take(i as int));
        assert(b@ =~= s@.skip(i + 1));
        Some((a, b))
    } else {
        None
    }
}

/// Whether `s` starts with `p`.
pub open spec fn starts_with(s: Seq<char>, p: Seq<char>) -> bool {
    p.len() <= s.len() && s.take(p.len() as int) == p
}

/// Whether `s` ends with `p`.
pub open spec fn ends_with(s: Seq<char>, p: Seq<char>) -> bool {
    p.len() <= s.len() && s.skip(s.len() - p.len()) == p
}

/// What follows `p` in `s`, where `s` starts with it.
pub open spec fn strip_prefix(s: Seq<char>, p: Seq<char>) -> Option<Seq<char>> {
    if starts_with(s, p) {
        Some(s.skip(p.len() as int))
    } else {
        None
    }
}

/// What comes before `p` in `s`, where `s` ends with it.
pub open spec fn strip_suffix(s: Seq<char>, p: Seq<char>) -> Option<Seq<char>> {
    if ends_with(s, p) {
        Some(s.take(s.len() - p.len()))
    } else {
        None
    }
}

/// What follows `p` in `s`, where `s` starts with it.
pub fn after<'a>(s: &'a [char], p: &[char]) -> (r: Option<&'a [char]>)
    ensures
        match r {
            Some(rest) => strip_prefix(s@, p@) == Some(rest@),
            None => strip_prefix(s@, p@) is None,
        },
{
    if p.len() > s.len() {
        return None;
    }
    let head = slice_subrange(s, 0, p.len());
    assert(head@ =~= s@.take(p@.len() as int));
    if equal(head, p) {
        let rest = slice_subrange(s, p.len(), s.len());
        assert(rest@ =~= s@.skip(p@.len() as int));
        Some(rest)
    } else {
        None
    }
}

/// What follows the text `p` in `s`, where `s` starts with it.
pub fn after_text<'a>(s: &'a [char], p: &str) -> (r: Option<&'a [char]>)
    ensures
        match r {
            Some(rest) => strip_prefix(s@, p@) == Some(rest@),
            None => strip_prefix(s@, p@) is None,
        },
{
    let w = chars(p);
    after(s, w.as_slice())
}

/// What comes before `p` in `s`, where `s` ends with it.
pub fn before_text<'a>(s: &'a [char], p: &str) -> (r: Option<&'a [char]>)
    ensures
        match r {
            Some(rest) => strip_suffix(s@, p@) == Some(rest@),
            None => strip_suffix(s@, p@) is None,
        },
{
    let w = chars(p);
    if w.len() > s.len() {
        return None;
    }
    let cut = s.len() - w.len();
    let tail = slice_subrange(s, cut, s.len());
    assert(tail@ =~= s@.skip(s@.len() - p@.len()));
    if equal(tail, w.as_slice()) {
        let rest = slice_subrange(s, 0, cut);
        assert(rest@ =~= s@.take(s@.len() - p@.len()));
        Some(rest)
    } else {
        None
    }
}

/// The index of the first occurrence of the text `p` in `s`.
pub open spec fn first_text(s: Seq<char>, p: Seq<char>) -> Option<int>
    decreases s.len(),
{
    if starts_with(s, p) {
        Some(0)
    } else if s.len() == 0 {
        None
    } else {
        match first_text(s.skip(1), p) {
            Some(i) => Some(i + 1),
            None => None,
        }
    }
}

/// What comes before and after the first occurrence of the text `p`.
pub open spec fn split_once_text(s: Seq<char>, p: Seq<char>) -> Option<(Seq<char>, Seq<char>)> {
    match first_text(s, p) {
        Some(i) => Some((s.take(i), s.skip(i + p.len()))),
        None => None,
    }
}

/// What [`first_text`] is, without recursion.
pub proof fn lemma_first_text(s: Seq<char>, p: Seq<char>)
    ensures
        match first_text(s, p) {
            Some(i) => {
                &&& 0 <= i <= s.len() - p.len()
                &&& starts_with(s.skip(i), p)
                &&& forall|j: int| 0 <= j < i ==> !starts_with(#[trigger] s.skip(j), p)
            },
            None => forall|j: int| 0 <= j <= s.len() ==> !starts_with(#[trigger] s.skip(j), p),
        },
    decreases s.len(),
{
    assert(s.skip(0) =~= s);
    if !starts_with(s, p) && s.len() > 0 {
        lemma_first_text(s.skip(1), p);
        assert forall|j: int| 1 <= j <= s.len() implies #[trigger] s.skip(j) == s.skip(1).skip(j - 1) by {
            assert(s.skip(j) =~= s.skip(1).skip(j - 1));
        }
    }
}

/// An index that has the properties of [`first_text`] is [`first_text`].
pub proof fn lemma_first_text_unique(s: Seq<char>, p: Seq<char>, i: int)
    requires
        0 <= i <= s.len(),
        starts_with(s.skip(i), p),
        forall|j: int| 0 <= j < i ==> !starts_with(#[trigger] s.skip(j), p),
    ensures
        first_text(s, p) == Some(i),
{
    lemma_first_text(s, p);
}

/// Splits `s` at the first occurrence of `p`, which goes to neither side.
pub fn cut_once_text<'a>(s: &'a [char], p: &str) -> (r: Option<(&'a [char], &'a [char])>)
    ensures
        match r {
            Some((a, b)) => split_once_text(s@, p@) == Some((a@, b@)),
            None => split_once_text(s@, p@) is None,
        },
{
    let w = chars(p);
    let mut i: usize = 0;
    loop
        invariant
            i <= s.len(),
            w@ == p@,
            forall|j: int| 0 <= j < i ==> !starts_with(#[trigger] s@.skip(j), p@),
        decreases s.len() - i,
    {
        let tail = slice_subrange(s, i, s.len());
        assert(tail@ =~= s@.skip(i as int));
        if let Some(b) = after(tail, w.as_slice()) {
            let a = slice_subrange(s, 0, i);
            proof {
                lemma_first_text_unique(s@, p@, i as int);
                assert(a@ =~= s@.take(i as int));
                assert(b@ =~= s@.skip(i + p@.len()));
            }
            return Some((a, b));
        }
        if i == s.len() {
            proof {
                lemma_first_text(s@, p@);
            }
            return None;
        }
        i += 1;
    }
}

/// What `c` separates in `s`: one piece more than there are separators.
pub open spec fn split(s: Seq<char>, c: char) -> Seq<Seq<char>>
    decreases s.len(),
{
    if first(s, c) < s.len() {
        proof {
            lemma_first(s, c);
        }
        seq![s.take(first(s, c))] + split(s.skip(first(s, c) + 1), c)
    } else {
        seq![s]
    }
}

/// What `c` separates in `s`.
pub fn split_each<'a>(s: &'a [char], c: char) -> (r: Vec<&'a [char]>)
    ensures
        pieces(r@) == split(s@, c),
{
    let mut out: Vec<&'a [char]> = Vec::new();
    let mut rest: &'a [char] = s;
    assert(pieces(out@) + split(s@, c) =~= split(s@, c));
    loop
        invariant
            split(s@, c) == pieces(out@) + split(rest@, c),
        decreases rest.len(),
    {
        match cut_once(rest, c) {
            Some((head, tail)) => {
                let ghost was = pieces(out@);
                proof {
                    lemma_first(rest@, c);
                }
                out.push(head);
                assert(was.push(head@) + split(tail@, c) =~= was + (seq![head@] + split(tail@, c)));
                rest = tail;
            },
            None => {
                let ghost was = pieces(out@);
                out.push(rest);
                assert(was.push(rest@) =~= was + seq![rest@]);
                return out;
            },
        }
    }
}

/// A text that starts with a piece and a separator splits into that piece and the rest.
pub proof fn lemma_split_head(piece: Seq<char>, c: char, rest: Seq<char>)
    requires
        !piece.contains(c),
    ensures
        first(piece.push(c) + rest, c) == piece.len(),
        split_once(piece.push(c) + rest, c) == Some((piece, rest)),
        split(piece.push(c) + rest, c) == seq![piece] + split(rest, c),
{
    let s = piece.push(c) + rest;
    assert forall|j: int| 0 <= j < piece.len() implies s[j] != c by {
        assert(s[j] == piece[j]);
    }
    lemma_first_unique(s, c, piece.len() as int);
    assert(s.take(piece.len() as int) =~= piece);
    assert(s.skip(piece.len() as int + 1) =~= rest);
}

/// A text without the separator is one piece.
pub proof fn lemma_split_whole(piece: Seq<char>, c: char)
    requires
        !piece.contains(c),
    ensures
        first(piece, c) == piece.len(),
        split_once(piece, c) is None,
        split(piece, c) == seq![piece],
{
    lemma_first(piece, c);
    if first(piece, c) < piece.len() {
        assert(piece.contains(c));
    }
}

/// A text that starts with `head` and the text `p`, found nowhere earlier, splits there.
pub proof fn lemma_split_text(head: Seq<char>, p: Seq<char>, rest: Seq<char>, c: char)
    requires
        p.len() > 0,
        p[0] == c,
        !head.contains(c),
    ensures
        first_text(head + p + rest, p) == Some(head.len() as int),
        split_once_text(head + p + rest, p) == Some((head, rest)),
{
    let s = head + p + rest;
    let n = head.len() as int;
    assert(s.skip(n).take(p.len() as int) =~= p);
    assert forall|j: int| 0 <= j < n implies !starts_with(#[trigger] s.skip(j), p) by {
        assert(s.skip(j)[0] == head[j]);
        assert(head.contains(head[j]));
        if starts_with(s.skip(j), p) {
            assert(s.skip(j).take(p.len() as int)[0] == p[0]);
        }
    }
    lemma_first_text_unique(s, p, n);
    assert(s.take(n) =~= head);
    assert(s.skip(n + p.len()) =~= rest);
}

/// The first `p` after a text without one, where none starts inside that text and ends outside it.
pub proof fn lemma_split_text_after(head: Seq<char>, p: Seq<char>, rest: Seq<char>)
    requires
        p.len() > 0,
        first_text(head, p) is None,
        forall|k: int|
            0 < k < p.len() && k <= head.len() ==> !starts_with(
                #[trigger] (head + p + rest).skip(head.len() - k),
                p,
            ),
    ensures
        split_once_text(head + p + rest, p) == Some((head, rest)),
{
    let s = head + p + rest;
    let n = head.len() as int;
    let m = p.len() as int;
    lemma_first_text(head, p);
    assert(s.skip(n).take(m) =~= p);
    assert forall|j: int| 0 <= j < n implies !starts_with(#[trigger] s.skip(j), p) by {
        if j + m <= n {
            assert(s.skip(j).take(m) =~= head.skip(j).take(m));
            assert(!starts_with(head.skip(j), p));
        } else {
            assert(s.skip(j) == s.skip(head.len() - (n - j)));
        }
    }
    lemma_first_text_unique(s, p, n);
    assert(s.take(n) =~= head);
    assert(s.skip(n + m) =~= rest);
}

/// A text that does not hold the first character of `p` does not hold `p`.
pub proof fn lemma_split_text_none(s: Seq<char>, p: Seq<char>, c: char)
    requires
        p.len() > 0,
        p[0] == c,
        !s.contains(c),
    ensures
        first_text(s, p) is None,
        split_once_text(s, p) is None,
{
    lemma_first_text(s, p);
    if first_text(s, p) is Some {
        let i = first_text(s, p)->0;
        assert(s.skip(i).take(p.len() as int)[0] == c);
        assert(s[i] == c);
    }
}

// ---------------------------------------------------------------------------------------------
// Lines and words

/// `line` without the carriage return that ends it.
pub open spec fn without_return(line: Seq<char>) -> Seq<char> {
    if line.len() > 0 && line.last() == '\r' {
        line.drop_last()
    } else {
        line
    }
}

/// The lines of `s`: what each line feed ends, and what follows the last one.
///
/// A carriage return before a line feed belongs to the line's end. A text that ends in a line
/// feed has no empty line after it.
pub open spec fn lines(s: Seq<char>) -> Seq<Seq<char>>
    decreases s.len(),
{
    if s.len() == 0 {
        Seq::empty()
    } else if first(s, '\n') < s.len() {
        proof {
            lemma_first(s, '\n');
        }
        seq![without_return(s.take(first(s, '\n')))] + lines(s.skip(first(s, '\n') + 1))
    } else {
        seq![s]
    }
}

/// A line and its line feed come off the front of a text.
pub proof fn lemma_lines_head(line: Seq<char>, rest: Seq<char>)
    requires
        !line.contains('\n'),
        line.len() == 0 || line.last() != '\r',
    ensures
        lines(line.push('\n') + rest) == seq![line] + lines(rest),
{
    let s = line.push('\n') + rest;
    lemma_split_head(line, '\n', rest);
    assert(s.take(line.len() as int) =~= line);
    assert(s.skip(line.len() as int + 1) =~= rest);
    lemma_first(s, '\n');
}

/// Cuts the first line off `s`, which holds at least one character.
fn cut_line<'a>(s: &'a [char]) -> (r: (&'a [char], &'a [char]))
    requires
        s.len() > 0,
    ensures
        lines(s@) == seq![r.0@] + lines(r.1@),
        r.1.len() < s.len(),
{
    let i = find(s, '\n');
    if i < s.len() {
        let rest = slice_subrange(s, i + 1, s.len());
        assert(rest@ =~= s@.skip(i + 1));
        let head = slice_subrange(s, 0, i);
        assert(head@ =~= s@.take(i as int));
        if i > 0 && s[i - 1] == '\r' {
            let line = slice_subrange(s, 0, i - 1);
            assert(line@ =~= head@.drop_last());
            (line, rest)
        } else {
            (head, rest)
        }
    } else {
        let rest = slice_subrange(s, s.len(), s.len());
        assert(rest@ =~= Seq::<char>::empty());
        assert(seq![s@] + Seq::<Seq<char>>::empty() =~= seq![s@]);
        (s, rest)
    }
}

/// The lines of `s`.
pub fn split_lines<'a>(s: &'a [char]) -> (r: Vec<&'a [char]>)
    ensures
        pieces(r@) == lines(s@),
{
    let mut out: Vec<&'a [char]> = Vec::new();
    let mut rest: &'a [char] = s;
    while rest.len() > 0
        invariant
            lines(s@) == pieces(out@) + lines(rest@),
        decreases rest.len(),
    {
        let (line, tail) = cut_line(rest);
        let ghost before = pieces(out@);
        out.push(line);
        proof {
            assert(pieces(out@) =~= before.push(line@));
            assert(before.push(line@) + lines(tail@) =~= before + (seq![line@] + lines(tail@)));
        }
        rest = tail;
    }
    assert(pieces(out@) + Seq::<Seq<char>>::empty() =~= pieces(out@));
    out
}

/// Whether `c` has the Unicode property `White_Space`.
pub open spec fn is_space(c: char) -> bool {
    let n = c as int;
    9 <= n <= 13 || n == 0x20 || n == 0x85 || n == 0xa0 || n == 0x1680 || 0x2000 <= n <= 0x200a || n
        == 0x2028 || n == 0x2029 || n == 0x202f || n == 0x205f || n == 0x3000
}

/// Whether `c` has the Unicode property `White_Space`.
pub fn space(c: char) -> (r: bool)
    ensures
        r == is_space(c),
{
    let n: u32 = c as u32;
    (9 <= n && n <= 13) || n == 0x20 || n == 0x85 || n == 0xa0 || n == 0x1680 || (0x2000 <= n && n
        <= 0x200a) || n == 0x2028 || n == 0x2029 || n == 0x202f || n == 0x205f || n == 0x3000
}

/// `s` without the white space it starts with.
pub open spec fn trim_start(s: Seq<char>) -> Seq<char>
    decreases s.len(),
{
    if s.len() > 0 && is_space(s[0]) {
        trim_start(s.skip(1))
    } else {
        s
    }
}

/// `s` without the white space it ends with.
pub open spec fn trim_end(s: Seq<char>) -> Seq<char>
    decreases s.len(),
{
    if s.len() > 0 && is_space(s.last()) {
        trim_end(s.drop_last())
    } else {
        s
    }
}

/// `s` without the white space round it.
pub open spec fn trim(s: Seq<char>) -> Seq<char> {
    trim_end(trim_start(s))
}

/// `s` without the white space it starts with.
pub fn trimmed_start<'a>(s: &'a [char]) -> (r: &'a [char])
    ensures
        r@ == trim_start(s@),
        r.len() <= s.len(),
        r.len() > 0 ==> !is_space(r@[0]),
{
    let mut i: usize = 0;
    assert(s@.skip(0) =~= s@);
    while i < s.len() && space(s[i])
        invariant
            i <= s.len(),
            trim_start(s@) == trim_start(s@.skip(i as int)),
        decreases s.len() - i,
    {
        assert(s@.skip(i as int).skip(1) =~= s@.skip(i + 1));
        i += 1;
    }
    let r = slice_subrange(s, i, s.len());
    assert(r@ =~= s@.skip(i as int));
    r
}

/// `s` without the white space round it.
pub fn trimmed<'a>(s: &'a [char]) -> (r: &'a [char])
    ensures
        r@ == trim(s@),
{
    let t = trimmed_start(s);
    let mut n: usize = t.len();
    assert(t@.take(n as int) =~= t@);
    while n > 0 && space(t[n - 1])
        invariant
            n <= t.len(),
            trim_end(t@) == trim_end(t@.take(n as int)),
        decreases n,
    {
        assert(t@.take(n as int).drop_last() =~= t@.take(n - 1));
        n -= 1;
    }
    let r = slice_subrange(t, 0, n);
    assert(r@ =~= t@.take(n as int));
    r
}

/// A text that neither starts nor ends with white space is left as it is.
pub proof fn lemma_trim_bare(s: Seq<char>)
    requires
        s.len() > 0,
        !is_space(s[0]),
        !is_space(s.last()),
    ensures
        trim(s) == s,
{
}

/// How many characters of `s` come before the first white space.
pub open spec fn word_len(s: Seq<char>) -> int
    decreases s.len(),
{
    if s.len() == 0 || is_space(s[0]) {
        0
    } else {
        1 + word_len(s.skip(1))
    }
}

/// What [`word_len`] is, without recursion.
pub proof fn lemma_word_len(s: Seq<char>)
    ensures
        0 <= word_len(s) <= s.len(),
        forall|j: int| 0 <= j < word_len(s) ==> !is_space(#[trigger] s[j]),
        word_len(s) < s.len() ==> is_space(s[word_len(s)]),
    decreases s.len(),
{
    if s.len() > 0 && !is_space(s[0]) {
        lemma_word_len(s.skip(1));
        assert forall|j: int| 0 <= j < word_len(s) implies !is_space(#[trigger] s[j]) by {
            if j > 0 {
                assert(s[j] == s.skip(1)[j - 1]);
            }
        }
    }
}

/// [`trim_start`] never lengthens a text, and leaves it empty or at a word.
pub proof fn lemma_trim_start(s: Seq<char>)
    ensures
        trim_start(s).len() <= s.len(),
        trim_start(s).len() > 0 ==> !is_space(trim_start(s)[0]),
    decreases s.len(),
{
    if s.len() > 0 && is_space(s[0]) {
        lemma_trim_start(s.skip(1));
    }
}

/// The words of `s`: its longest runs of characters that are not white space.
pub open spec fn words(s: Seq<char>) -> Seq<Seq<char>>
    decreases s.len(),
{
    let t = trim_start(s);
    if t.len() == 0 {
        Seq::empty()
    } else {
        proof {
            lemma_trim_start(s);
            lemma_word_len(t);
        }
        seq![t.take(word_len(t))] + words(t.skip(word_len(t)))
    }
}

/// The words of `s`.
pub fn split_words<'a>(s: &'a [char]) -> (r: Vec<&'a [char]>)
    ensures
        pieces(r@) == words(s@),
{
    let mut out: Vec<&'a [char]> = Vec::new();
    let mut rest: &'a [char] = trimmed_start(s);
    proof {
        lemma_trim_start(s@);
        assert(trim_start(rest@) == rest@);
        assert(words(s@) =~= words(rest@));
        assert(pieces(out@) + words(rest@) =~= words(rest@));
    }
    while rest.len() > 0
        invariant
            words(s@) == pieces(out@) + words(rest@),
            trim_start(rest@) == rest@,
            rest.len() > 0 ==> !is_space(rest@[0]),
        decreases rest.len(),
    {
        let mut n: usize = 0;
        while n < rest.len() && !space(rest[n])
            invariant
                n <= rest.len(),
                forall|j: int| 0 <= j < n ==> !is_space(#[trigger] rest@[j]),
            decreases rest.len() - n,
        {
            n += 1;
        }
        proof {
            lemma_word_len(rest@);
            assert(n == word_len(rest@));
        }
        let word = slice_subrange(rest, 0, n);
        let tail = slice_subrange(rest, n, rest.len());
        let next = trimmed_start(tail);
        let ghost before = pieces(out@);
        out.push(word);
        proof {
            assert(word@ =~= rest@.take(n as int));
            assert(tail@ =~= rest@.skip(n as int));
            assert(n > 0);
            lemma_trim_start(tail@);
            assert(trim_start(next@) == next@);
            assert(words(tail@) =~= words(next@));
            assert(pieces(out@) =~= before.push(word@));
            assert(before.push(word@) + words(next@) =~= before + (seq![word@] + words(next@)));
        }
        rest = next;
    }
    assert(words(rest@) =~= Seq::<Seq<char>>::empty());
    assert(pieces(out@) + Seq::<Seq<char>>::empty() =~= pieces(out@));
    out
}

/// Whether `s` holds no white space.
pub open spec fn spaceless(s: Seq<char>) -> bool {
    forall|i: int| 0 <= i < s.len() ==> !is_space(#[trigger] s[i])
}

/// Whether `s` is one word.
pub open spec fn is_word(s: Seq<char>) -> bool {
    s.len() > 0 && spaceless(s)
}

/// A word without white space comes off the front of a text.
pub proof fn lemma_words_head(word: Seq<char>, rest: Seq<char>)
    requires
        is_word(word),
    ensures
        words(word.push(' ') + rest) == seq![word] + words(rest),
{
    let s = word.push(' ') + rest;
    assert(s[0] == word[0]);
    assert(trim_start(s) == s);
    lemma_word_len(s);
    assert(word_len(s) == word.len()) by {
        if word_len(s) < word.len() {
            assert(s[word_len(s)] == word[word_len(s)]);
        } else if word_len(s) > word.len() {
            assert(s[word.len() as int] == ' ');
            assert(!is_space(s[word.len() as int]));
        }
    }
    assert(s.take(word.len() as int) =~= word);
    let tail = s.skip(word.len() as int);
    assert(tail[0] == ' ');
    assert(tail.skip(1) =~= rest);
    assert(trim_start(tail) == trim_start(rest));
    assert(words(tail) =~= words(rest));
}

/// A word is its own only word.
pub proof fn lemma_words_whole(word: Seq<char>)
    requires
        is_word(word),
    ensures
        words(word) == seq![word],
{
    lemma_word_len(word);
    assert(word_len(word) == word.len()) by {
        if word_len(word) < word.len() {
            assert(!is_space(word[word_len(word)]));
        }
    }
    assert(word.take(word.len() as int) =~= word);
    assert(word.skip(word.len() as int) =~= Seq::<char>::empty());
    assert(words(Seq::<char>::empty()) =~= Seq::<Seq<char>>::empty());
    assert(seq![word] + Seq::<Seq<char>>::empty() =~= seq![word]);
}

/// Whether `s` ends a line: it is empty or its last character is a line feed.
pub open spec fn ends_line(s: Seq<char>) -> bool {
    s.len() == 0 || s.last() == '\n'
}

/// The lines of two texts, where the first ends a line, are the lines of both together.
pub proof fn lemma_lines_add(a: Seq<char>, b: Seq<char>)
    requires
        ends_line(a),
    ensures
        lines(a + b) == lines(a) + lines(b),
    decreases a.len(),
{
    if a.len() == 0 {
        assert(a + b =~= b);
        assert(lines(a) + lines(b) =~= lines(b));
    } else {
        let s = a + b;
        lemma_first(a, '\n');
        lemma_first(s, '\n');
        let i = first(a, '\n');
        assert(i < a.len()) by {
            if i == a.len() {
                assert(a[a.len() - 1] == '\n');
            }
        }
        assert forall|j: int| 0 <= j < i implies s[j] != '\n' by {
            assert(s[j] == a[j]);
        }
        lemma_first_unique(s, '\n', i);
        let rest = a.skip(i + 1);
        assert(s.take(i) =~= a.take(i));
        assert(s.skip(i + 1) =~= rest + b);
        assert(rest.len() > 0 ==> rest.last() == a.last());
        lemma_lines_add(rest, b);
        let head = without_return(a.take(i));
        assert(seq![head] + (lines(rest) + lines(b)) =~= (seq![head] + lines(rest)) + lines(b));
    }
}

/// Whether `s` fits on one line: it holds no line feed and no carriage return.
pub open spec fn one_liner(s: Seq<char>) -> bool {
    !s.contains('\n') && !s.contains('\r')
}

/// Two texts that fit on one line fit on one line together.
pub proof fn lemma_one_liner_add(a: Seq<char>, b: Seq<char>)
    requires
        one_liner(a),
        one_liner(b),
    ensures
        one_liner(a + b),
{
    assert forall|i: int| 0 <= i < (a + b).len() implies #[trigger] (a + b)[i] != '\n' && (a
        + b)[i] != '\r' by {
        if i < a.len() {
            assert(a.contains(a[i]));
        } else {
            assert(b.contains(b[i - a.len()]));
        }
    }
}

/// A word fits on one line.
pub proof fn lemma_one_liner_word(s: Seq<char>)
    requires
        spaceless(s),
    ensures
        one_liner(s),
{
    assert forall|i: int| 0 <= i < s.len() implies #[trigger] s[i] != '\n' && s[i] != '\r' by {
        assert(!is_space(s[i]));
    }
}

/// Each line of `list`, with its line feed.
pub open spec fn unlines(list: Seq<Seq<char>>) -> Seq<char>
    decreases list.len(),
{
    if list.len() == 0 {
        Seq::empty()
    } else {
        unlines(list.drop_last()) + list.last().push('\n')
    }
}

/// One line more.
pub proof fn lemma_unlines_push(list: Seq<Seq<char>>, line: Seq<char>)
    ensures
        unlines(list.push(line)) == unlines(list) + line.push('\n'),
{
    assert(list.push(line).drop_last() =~= list);
}

/// The lines of one list after those of another.
pub proof fn lemma_unlines_add(a: Seq<Seq<char>>, b: Seq<Seq<char>>)
    ensures
        unlines(a + b) == unlines(a) + unlines(b),
    decreases b.len(),
{
    if b.len() == 0 {
        assert(a + b =~= a);
        assert(unlines(a) + unlines(b) =~= unlines(a));
    } else {
        assert((a + b).drop_last() =~= a + b.drop_last());
        lemma_unlines_add(a, b.drop_last());
        assert(unlines(a) + unlines(b.drop_last()) + b.last().push('\n') =~= unlines(a) + (unlines(
            b.drop_last(),
        ) + b.last().push('\n')));
    }
}

/// What was written line by line reads back line by line.
pub proof fn lemma_lines_of_unlines(list: Seq<Seq<char>>)
    requires
        forall|i: int| 0 <= i < list.len() ==> one_liner(#[trigger] list[i]),
    ensures
        lines(unlines(list)) == list,
        ends_line(unlines(list)),
    decreases list.len(),
{
    if list.len() == 0 {
        assert(lines(unlines(list)) =~= list);
    } else {
        let head = list.drop_last();
        let line = list.last();
        assert forall|i: int| 0 <= i < head.len() implies one_liner(#[trigger] head[i]) by {
            assert(head[i] == list[i]);
        }
        lemma_lines_of_unlines(head);
        assert(one_liner(list[list.len() - 1]));
        lemma_lines_add(unlines(head), line.push('\n'));
        if line.len() > 0 {
            assert(line.contains(line[line.len() - 1]));
        }
        assert(line.push('\n') + Seq::<char>::empty() =~= line.push('\n'));
        lemma_lines_head(line, Seq::empty());
        assert(lines(Seq::<char>::empty()) =~= Seq::<Seq<char>>::empty());
        assert(head + (seq![line] + Seq::<Seq<char>>::empty()) =~= list);
    }
}

/// `s` with a space in place of each line feed and carriage return.
pub open spec fn flat(s: Seq<char>) -> Seq<char> {
    s.map_values(
        |c: char|
            if c == '\n' || c == '\r' {
                ' '
            } else {
                c
            },
    )
}

/// A flattened text fits on one line, and one that did is unchanged.
pub proof fn lemma_flat(s: Seq<char>)
    ensures
        one_liner(flat(s)),
        one_liner(s) ==> flat(s) == s,
{
    if one_liner(s) {
        assert forall|i: int| 0 <= i < s.len() implies flat(s)[i] == s[i] by {
            assert(s.contains(s[i]));
        }
        assert(flat(s) =~= s);
    }
}

/// `s` with a space in place of each line feed and carriage return.
pub fn flattened(s: &str) -> (r: String)
    ensures
        r@ == flat(s@),
{
    let all = chars(s);
    let mut out = String::new();
    let mut i: usize = 0;
    while i < all.len()
        invariant
            i <= all.len(),
            out@ == flat(all@.take(i as int)),
        decreases all.len() - i,
    {
        let c = if all[i] == '\n' || all[i] == '\r' {
            ' '
        } else {
            all[i]
        };
        out.push(c);
        assert(flat(all@.take(i + 1)) =~= flat(all@.take(i as int)).push(c));
        i += 1;
    }
    assert(all@.take(all@.len() as int) =~= all@);
    out
}

// ---------------------------------------------------------------------------------------------
// Numbers

/// Whether `c` is an ASCII digit.
pub open spec fn is_digit(c: char) -> bool {
    '0' as int <= c as int <= '9' as int
}

/// Whether `s` is one ASCII digit or more.
pub open spec fn all_digits(s: Seq<char>) -> bool {
    s.len() > 0 && forall|i: int| 0 <= i < s.len() ==> is_digit(#[trigger] s[i])
}

/// The number the digits `s` spell in base ten.
pub open spec fn digits_value(s: Seq<char>) -> int
    decreases s.len(),
{
    if s.len() == 0 {
        0
    } else {
        10 * digits_value(s.drop_last()) + (s.last() as int - '0' as int)
    }
}

/// The digits of `n` in base ten, without leading zeros.
pub open spec fn dec(n: nat) -> Seq<char>
    decreases n,
{
    if n < 10 {
        seq![('0' as int + n) as char]
    } else {
        dec(n / 10).push(('0' as int + n % 10) as char)
    }
}

/// `n` in base ten, with a minus sign where it is negative.
pub open spec fn dec_int(n: int) -> Seq<char> {
    if n < 0 {
        seq!['-'] + dec((-n) as nat)
    } else {
        dec(n as nat)
    }
}

/// What an unsigned number's text says: digits, after an optional plus sign.
pub open spec fn unsigned(s: Seq<char>) -> Option<int> {
    let t = if s.len() > 0 && s[0] == '+' {
        s.skip(1)
    } else {
        s
    };
    if all_digits(t) {
        Some(digits_value(t))
    } else {
        None
    }
}

/// What a signed number's text says: digits, after an optional sign.
pub open spec fn signed(s: Seq<char>) -> Option<int> {
    if s.len() > 0 && s[0] == '-' {
        if all_digits(s.skip(1)) {
            Some(-digits_value(s.skip(1)))
        } else {
            None
        }
    } else {
        unsigned(s)
    }
}

/// [`dec`] spells digits, and they spell the number.
pub proof fn lemma_dec(n: nat)
    ensures
        all_digits(dec(n)),
        digits_value(dec(n)) == n,
    decreases n,
{
    if n >= 10 {
        lemma_dec(n / 10);
        let head = dec(n / 10);
        let last = ('0' as int + n % 10) as char;
        assert(is_digit(last));
        assert(head.push(last).drop_last() =~= head);
        assert(digits_value(head.push(last)) == 10 * digits_value(head) + (last as int - '0' as int));
        assert forall|i: int| 0 <= i < head.push(last).len() implies is_digit(
            #[trigger] head.push(last)[i],
        ) by {
            if i < head.len() {
                assert(is_digit(head[i]));
            }
        }
    } else {
        let only = seq![('0' as int + n) as char];
        assert(only.drop_last() =~= Seq::<char>::empty());
        assert(digits_value(only) == 10 * digits_value(only.drop_last()) + (only.last() as int
            - '0' as int));
        assert(digits_value(Seq::<char>::empty()) == 0);
    }
}

/// `s` with zeros before it up to `width` characters.
pub open spec fn zero_padded(s: Seq<char>, width: nat) -> Seq<char>
    decreases width,
{
    if s.len() >= width {
        s
    } else {
        seq!['0'] + zero_padded(s, (width - 1) as nat)
    }
}

/// A zero before the digits of a number changes nothing.
proof fn lemma_leading_zero(s: Seq<char>)
    requires
        all_digits(s),
    ensures
        all_digits(seq!['0'] + s),
        digits_value(seq!['0'] + s) == digits_value(s),
    decreases s.len(),
{
    let t = seq!['0'] + s;
    assert forall|i: int| 0 <= i < t.len() implies is_digit(#[trigger] t[i]) by {
        if i > 0 {
            assert(t[i] == s[i - 1]);
        }
    }
    assert(t.drop_last() =~= seq!['0'] + s.drop_last());
    assert(t.last() == s.last());
    if s.len() > 1 {
        let r = s.drop_last();
        assert forall|i: int| 0 <= i < r.len() implies is_digit(#[trigger] r[i]) by {
            assert(r[i] == s[i]);
        }
        lemma_leading_zero(r);
    } else {
        assert(s.drop_last() =~= Seq::<char>::empty());
        assert(t.drop_last() =~= seq!['0']);
        assert(seq!['0'].drop_last() =~= Seq::<char>::empty());
        assert(digits_value(seq!['0']) == 10 * digits_value(seq!['0'].drop_last()) + ('0' as int
            - '0' as int));
        assert(digits_value(Seq::<char>::empty()) == 0);
    }
}

/// A number padded with zeros has at least the width, spells digits, and reads back.
pub proof fn lemma_zero_padded(n: nat, width: nat)
    ensures
        all_digits(zero_padded(dec(n), width)),
        digits_value(zero_padded(dec(n), width)) == n,
        zero_padded(dec(n), width).len() == if dec(n).len() >= width {
            dec(n).len()
        } else {
            width
        },
        unsigned(zero_padded(dec(n), width)) == Some(n as int),
        signed(zero_padded(dec(n), width)) == Some(n as int),
    decreases width,
{
    lemma_dec(n);
    if dec(n).len() < width {
        lemma_zero_padded(n, (width - 1) as nat);
        lemma_leading_zero(zero_padded(dec(n), (width - 1) as nat));
    }
    assert(is_digit(zero_padded(dec(n), width)[0]));
}

/// Appends `n` with zeros before it up to `width` digits.
pub fn push_padded(out: &mut String, n: u64, width: usize)
    ensures
        final(out)@ == old(out)@ + zero_padded(dec(n as nat), width as nat),
{
    let digits = decimal(n);
    let len = digits.as_str().unicode_len();
    let ghost start = out@;
    let mut left: usize = width;
    assert(start + zero_padded(dec(n as nat), width as nat) == out@ + zero_padded(
        dec(n as nat),
        left as nat,
    ));
    while left > len
        invariant
            digits@ == dec(n as nat),
            len == digits@.len(),
            start + zero_padded(dec(n as nat), width as nat) == out@ + zero_padded(
                dec(n as nat),
                left as nat,
            ),
        decreases left,
    {
        let ghost was = out@;
        out.push('0');
        left -= 1;
        assert(was + (seq!['0'] + zero_padded(dec(n as nat), left as nat)) =~= was.push('0')
            + zero_padded(dec(n as nat), left as nat));
    }
    out.push_str(digits.as_str());
}

/// The last index at which `s` holds one of two characters.
pub open spec fn last_of(s: Seq<char>, c: char, d: char) -> Option<int>
    decreases s.len(),
{
    if s.len() == 0 {
        None
    } else if s.last() == c || s.last() == d {
        Some(s.len() - 1)
    } else {
        last_of(s.drop_last(), c, d)
    }
}

/// Where only the first character of a tail is one of the two, that is the last index.
pub proof fn lemma_last_of(head: Seq<char>, tail: Seq<char>, c: char, d: char)
    requires
        tail.len() > 0,
        tail[0] == c || tail[0] == d,
        forall|i: int| 1 <= i < tail.len() ==> #[trigger] tail[i] != c && tail[i] != d,
    ensures
        last_of(head + tail, c, d) == Some(head.len() as int),
    decreases tail.len(),
{
    let s = head + tail;
    if tail.len() > 1 {
        assert(s.last() == tail[tail.len() - 1]);
        assert(s.drop_last() =~= head + tail.drop_last());
        lemma_last_of(head, tail.drop_last(), c, d);
    } else {
        assert(s.last() == tail[0]);
    }
}

/// Digits hold nothing but digits.
pub proof fn lemma_digits_lack(s: Seq<char>, c: char)
    requires
        all_digits(s),
        !is_digit(c),
    ensures
        !s.contains(c),
{
    if s.contains(c) {
        let i = choose|i: int| 0 <= i < s.len() && s[i] == c;
        assert(is_digit(s[i]));
    }
}

/// The last index at which `s` holds one of two characters.
pub fn rfind_either(s: &[char], c: char, d: char) -> (r: Option<usize>)
    ensures
        match r {
            Some(i) => last_of(s@, c, d) == Some(i as int) && i < s.len(),
            None => last_of(s@, c, d) is None,
        },
{
    let mut n: usize = s.len();
    assert(s@.take(n as int) =~= s@);
    while n > 0
        invariant
            n <= s.len(),
            last_of(s@, c, d) == last_of(s@.take(n as int), c, d),
        decreases n,
    {
        if s[n - 1] == c || s[n - 1] == d {
            return Some(n - 1);
        }
        assert(s@.take(n as int).drop_last() =~= s@.take(n - 1));
        n -= 1;
    }
    None
}

/// A number's own digits read back as the number.
pub proof fn lemma_unsigned_of_dec(n: nat)
    ensures
        unsigned(dec(n)) == Some(n as int),
{
    lemma_dec(n);
    assert(is_digit(dec(n)[0]));
}

/// The characters of a number's text are digits and the minus sign.
pub proof fn lemma_dec_int_chars(n: int)
    ensures
        dec_int(n).len() > 0,
        forall|i: int|
            0 <= i < dec_int(n).len() ==> is_digit(#[trigger] dec_int(n)[i]) || dec_int(n)[i] == '-',
{
    if n < 0 {
        lemma_dec((-n) as nat);
        assert forall|i: int| 0 <= i < dec_int(n).len() implies is_digit(#[trigger] dec_int(n)[i])
            || dec_int(n)[i] == '-' by {
            if i > 0 {
                assert(dec_int(n)[i] == dec((-n) as nat)[i - 1]);
            }
        }
    } else {
        lemma_dec(n as nat);
    }
}

/// The character of the digit `d`.
fn digit(d: u64) -> (c: char)
    requires
        d < 10,
    ensures
        c == ('0' as int + d) as char,
{
    match d {
        0 => '0',
        1 => '1',
        2 => '2',
        3 => '3',
        4 => '4',
        5 => '5',
        6 => '6',
        7 => '7',
        8 => '8',
        _ => '9',
    }
}

/// Appends the digits of `n`.
pub fn push_decimal(out: &mut String, n: u64)
    ensures
        final(out)@ == old(out)@ + dec(n as nat),
    decreases n,
{
    let ghost start = out@;
    if n >= 10 {
        push_decimal(out, n / 10);
        out.push(digit(n % 10));
        assert(start + dec((n / 10) as nat).push(('0' as int + n % 10) as char) =~= (start + dec(
            (n / 10) as nat,
        )).push(('0' as int + n % 10) as char));
    } else {
        out.push(digit(n));
        assert(start + seq![('0' as int + n) as char] =~= start.push(('0' as int + n) as char));
    }
}

/// The digits of `n`.
pub fn decimal(n: u64) -> (s: String)
    ensures
        s@ == dec(n as nat),
{
    let mut s = String::new();
    push_decimal(&mut s, n);
    assert(Seq::<char>::empty() + dec(n as nat) =~= dec(n as nat));
    s
}

/// The text of the signed number `n`.
pub fn decimal_signed(n: i64) -> (s: String)
    ensures
        s@ == dec_int(n as int),
{
    let mut s = String::new();
    if n < 0 {
        s.push('-');
        if n == i64::MIN {
            push_decimal(&mut s, 9223372036854775808);
        } else {
            push_decimal(&mut s, (-n) as u64);
        }
        assert(Seq::<char>::empty().push('-') =~= seq!['-']);
    } else {
        push_decimal(&mut s, n as u64);
        assert(Seq::<char>::empty() + dec(n as nat) =~= dec(n as nat));
    }
    s
}

/// [`digits_value`] of a longer run of digits is at least that of a shorter one.
proof fn lemma_digits_value_grows(s: Seq<char>, i: int)
    requires
        forall|j: int| 0 <= j < s.len() ==> is_digit(#[trigger] s[j]),
        0 <= i <= s.len(),
    ensures
        0 <= digits_value(s.take(i)) <= digits_value(s),
    decreases s.len(),
{
    if i < s.len() {
        let t = s.drop_last();
        assert forall|j: int| 0 <= j < t.len() implies is_digit(#[trigger] t[j]) by {
            assert(t[j] == s[j]);
        }
        lemma_digits_value_grows(t, i);
        assert(t.take(i) =~= s.take(i));
        assert(is_digit(s[s.len() - 1]));
    } else {
        assert(s.take(i) =~= s);
        if s.len() > 0 {
            let t = s.drop_last();
            assert forall|j: int| 0 <= j < t.len() implies is_digit(#[trigger] t[j]) by {
                assert(t[j] == s[j]);
            }
            lemma_digits_value_grows(t, 0);
            assert(is_digit(s[s.len() - 1]));
            lemma_digits_value_grows(t, t.len() as int);
            assert(t.take(t.len() as int) =~= t);
        }
    }
}

/// The number `s` spells, where it spells one of at most `max`.
pub fn digits_up_to(s: &[char], max: u64) -> (r: Option<u64>)
    ensures
        match r {
            Some(n) => all_digits(s@) && digits_value(s@) == n && n <= max,
            None => !all_digits(s@) || digits_value(s@) > max,
        },
{
    if s.len() == 0 {
        return None;
    }
    let mut k: usize = 0;
    while k < s.len()
        invariant
            k <= s.len(),
            forall|j: int| 0 <= j < k ==> is_digit(#[trigger] s@[j]),
        decreases s.len() - k,
    {
        if s[k] < '0' || s[k] > '9' {
            assert(!is_digit(s@[k as int]));
            return None;
        }
        k += 1;
    }
    let mut n: u64 = 0;
    let mut i: usize = 0;
    assert(s@.take(0) =~= Seq::<char>::empty());
    while i < s.len()
        invariant
            i <= s.len(),
            forall|j: int| 0 <= j < s.len() ==> is_digit(#[trigger] s@[j]),
            n == digits_value(s@.take(i as int)),
            n <= max,
        decreases s.len() - i,
    {
        let d: u64 = (s[i] as u32 - '0' as u32) as u64;
        proof {
            assert(is_digit(s@[i as int]));
            assert(s@.take(i + 1).drop_last() =~= s@.take(i as int));
            assert(s@.take(i + 1).last() == s@[i as int]);
            lemma_digits_value_grows(s@, i + 1);
        }
        if n > max / 10 || (n == max / 10 && d > max % 10) {
            return None;
        }
        n = n * 10 + d;
        i += 1;
    }
    assert(s@.take(s@.len() as int) =~= s@);
    Some(n)
}

/// Reads an unsigned number of at most `max`.
pub fn parse_unsigned(s: &[char], max: u64) -> (r: Option<u64>)
    ensures
        match r {
            Some(n) => unsigned(s@) == Some(n as int) && n <= max,
            None => unsigned(s@) is None || unsigned(s@)->0 > max,
        },
{
    if s.len() > 0 && s[0] == '+' {
        let t = slice_subrange(s, 1, s.len());
        assert(t@ =~= s@.skip(1));
        digits_up_to(t, max)
    } else {
        digits_up_to(s, max)
    }
}

/// Reads a signed number between `-max - 1` and `max`.
pub fn parse_signed(s: &[char], max: i64) -> (r: Option<i64>)
    requires
        max >= 0,
    ensures
        match r {
            Some(n) => signed(s@) == Some(n as int) && -max - 1 <= n <= max,
            None => signed(s@) is None || signed(s@)->0 > max || signed(s@)->0 < -max - 1,
        },
{
    if s.len() > 0 && s[0] == '-' {
        let t = slice_subrange(s, 1, s.len());
        assert(t@ =~= s@.skip(1));
        match digits_up_to(t, max as u64 + 1) {
            Some(n) => if n == max as u64 + 1 {
                Some(-max - 1)
            } else {
                Some(-(n as i64))
            },
            None => None,
        }
    } else {
        match parse_unsigned(s, max as u64) {
            Some(n) => Some(n as i64),
            None => None,
        }
    }
}

// ---------------------------------------------------------------------------------------------
// Lists in words

/// The texts of a list, with `sep` between each two.
pub open spec fn listing(list: Seq<Seq<char>>, sep: Seq<char>) -> Seq<char>
    decreases list.len(),
{
    if list.len() == 0 {
        Seq::empty()
    } else if list.len() == 1 {
        list[0]
    } else {
        listing(list.drop_last(), sep) + sep + list.last()
    }
}

/// Appends the texts of a list, with `sep` between each two.
pub fn push_listing(out: &mut String, list: &Vec<String>, sep: &str)
    ensures
        final(out)@ == old(out)@ + listing(texts(list@), sep@),
{
    let ghost start = out@;
    let ghost all = texts(list@);
    let mut i: usize = 0;
    assert(start + listing(all.take(0), sep@) =~= start);
    while i < list.len()
        invariant
            i <= list.len(),
            all == texts(list@),
            out@ == start + listing(all.take(i as int), sep@),
        decreases list.len() - i,
    {
        if i > 0 {
            out.push_str(sep);
        }
        out.push_str(list[i].as_str());
        proof {
            let more = all.take(i + 1);
            assert(more.drop_last() =~= all.take(i as int));
            assert(more.last() == list@[i as int]@);
            assert(out@ =~= start + listing(more, sep@));
        }
        i += 1;
    }
    assert(all.take(i as int) =~= all);
}

/// A copy of a list of texts.
pub fn copied(list: &Vec<String>) -> (r: Vec<String>)
    ensures
        texts(r@) == texts(list@),
{
    let mut out: Vec<String> = Vec::new();
    let mut i: usize = 0;
    while i < list.len()
        invariant
            i <= list.len(),
            out@.len() == i,
            forall|k: int| 0 <= k < i ==> (#[trigger] out@[k])@ == list@[k]@,
        decreases list.len() - i,
    {
        out.push(list[i].clone());
        i += 1;
    }
    assert(texts(out@) =~= texts(list@));
    out
}

} // verus!
