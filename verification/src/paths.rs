//! Paths as text: the components of a path, and its last one.
//!
//! A path is a list of components separated by `/`. Empty components and `.` name nothing, so
//! `usr//bin/.` and `usr/bin` have the same components. `..` is a component, but no name.

use vstd::prelude::*;
use vstd::slice::slice_subrange;
use vstd::string::*;

use crate::text;

verus! {

broadcast use crate::text::group_lists;

/// Whether a piece between two separators is a component.
pub open spec fn is_component(piece: Seq<char>) -> bool {
    piece.len() > 0 && piece != seq!['.']
}

/// The components of a path.
pub open spec fn components(path: Seq<char>) -> Seq<Seq<char>> {
    text::split(path, '/').filter(|piece: Seq<char>| is_component(piece))
}

/// The components of a path that are names.
pub open spec fn names(path: Seq<char>) -> Seq<Seq<char>> {
    components(path).filter(|piece: Seq<char>| piece != seq!['.', '.'])
}

/// The last component, where it is a name.
pub open spec fn spec_file_name(path: Seq<char>) -> Option<Seq<char>> {
    let all = components(path);
    if all.len() > 0 && all.last() != seq!['.', '.'] {
        Some(all.last())
    } else {
        None
    }
}

/// Whether a piece is `.`.
fn is_dot(piece: &[char]) -> (r: bool)
    ensures
        r == (piece@ == seq!['.']),
{
    let r = piece.len() == 1 && piece[0] == '.';
    proof {
        if r {
            assert(piece@ =~= seq!['.']);
        }
    }
    r
}

/// Whether a piece is `..`.
fn is_dots(piece: &[char]) -> (r: bool)
    ensures
        r == (piece@ == seq!['.', '.']),
{
    let r = piece.len() == 2 && piece[0] == '.' && piece[1] == '.';
    proof {
        if r {
            assert(piece@ =~= seq!['.', '.']);
        }
    }
    r
}

/// The components of a path.
pub fn parts<'a>(path: &'a [char]) -> (r: Vec<&'a [char]>)
    ensures
        text::pieces(r@) == components(path@),
{
    let all = text::split_each(path, '/');
    let mut out: Vec<&'a [char]> = Vec::new();
    let ghost whole = text::pieces(all@);
    let ghost keep = |piece: Seq<char>| is_component(piece);
    let mut i: usize = 0;
    proof {
        reveal(Seq::filter);
        assert(text::pieces(out@) =~= whole.take(0).filter(keep));
    }
    while i < all.len()
        invariant
            i <= all.len(),
            whole == text::pieces(all@),
            keep == (|piece: Seq<char>| is_component(piece)),
            text::pieces(out@) == whole.take(i as int).filter(keep),
        decreases all.len() - i,
    {
        let piece = all[i];
        proof {
            crate::order::lemma_filter_step(whole, i as int, keep);
            assert(whole[i as int] == piece@);
        }
        if piece.len() > 0 && !is_dot(piece) {
            out.push(piece);
        }
        i += 1;
    }
    assert(whole.take(whole.len() as int) =~= whole);
    out
}

/// The components of a path that are names.
pub fn name_parts<'a>(path: &'a [char]) -> (r: Vec<&'a [char]>)
    ensures
        text::pieces(r@) == names(path@),
{
    let all = parts(path);
    let mut out: Vec<&'a [char]> = Vec::new();
    let ghost whole = text::pieces(all@);
    let ghost keep = |piece: Seq<char>| piece != seq!['.', '.'];
    let mut i: usize = 0;
    proof {
        reveal(Seq::filter);
        assert(text::pieces(out@) =~= whole.take(0).filter(keep));
    }
    while i < all.len()
        invariant
            i <= all.len(),
            whole == text::pieces(all@),
            keep == (|piece: Seq<char>| piece != seq!['.', '.']),
            text::pieces(out@) == whole.take(i as int).filter(keep),
        decreases all.len() - i,
    {
        let piece = all[i];
        proof {
            crate::order::lemma_filter_step(whole, i as int, keep);
            assert(whole[i as int] == piece@);
        }
        if !is_dots(piece) {
            out.push(piece);
        }
        i += 1;
    }
    assert(whole.take(whole.len() as int) =~= whole);
    out
}

/// The last component, where it is a name.
pub fn file_name<'a>(path: &'a [char]) -> (r: Option<&'a [char]>)
    ensures
        match r {
            Some(name) => spec_file_name(path@) == Some(name@),
            None => spec_file_name(path@) is None,
        },
{
    let all = parts(path);
    if all.len() == 0 {
        return None;
    }
    let last = all[all.len() - 1];
    assert(text::pieces(all@).last() == last@);
    if is_dots(last) {
        None
    } else {
        Some(last)
    }
}

/// `path` without the separators and the `.` components it ends with.
///
/// The first character stays, so the root stays the root.
pub open spec fn trim_tail(path: Seq<char>) -> Seq<char>
    decreases path.len(),
{
    if path.len() > 1 && path.last() == '/' {
        trim_tail(path.drop_last())
    } else if path.len() > 1 && path.last() == '.' && path[path.len() - 2] == '/' {
        trim_tail(path.drop_last())
    } else {
        path
    }
}

/// How many characters come before the last component, where `path` does not end in a separator.
pub open spec fn head_len(path: Seq<char>) -> int
    decreases path.len(),
{
    if path.len() == 0 || path.last() == '/' {
        path.len() as int
    } else {
        head_len(path.drop_last())
    }
}

/// The directory that holds what `path` names: empty for a bare name and for the root.
pub open spec fn spec_parent(path: Seq<char>) -> Seq<char> {
    let whole = trim_tail(path);
    if whole == seq!['/'] {
        Seq::empty()
    } else {
        trim_tail(whole.take(head_len(whole)))
    }
}

/// `path` without the separators and the `.` components it ends with.
fn trimmed_tail<'a>(path: &'a [char]) -> (r: &'a [char])
    ensures
        r@ == trim_tail(path@),
{
    let mut n: usize = path.len();
    assert(path@.take(n as int) =~= path@);
    while (n > 1 && path[n - 1] == '/') || (n > 1 && path[n - 1] == '.' && path[n - 2] == '/')
        invariant
            n <= path.len(),
            trim_tail(path@) == trim_tail(path@.take(n as int)),
        decreases n,
    {
        assert(path@.take(n as int).drop_last() =~= path@.take(n - 1));
        n -= 1;
    }
    let r = slice_subrange(path, 0, n);
    assert(r@ =~= path@.take(n as int));
    r
}

/// The directory that holds what `path` names: empty for a bare name and for the root.
pub fn parent<'a>(path: &'a [char]) -> (r: &'a [char])
    ensures
        r@ == spec_parent(path@),
{
    let whole = trimmed_tail(path);
    if whole.len() == 1 && whole[0] == '/' {
        let none = slice_subrange(whole, 0, 0);
        assert(whole@ =~= seq!['/']);
        assert(none@ =~= Seq::<char>::empty());
        return none;
    }
    let mut n: usize = whole.len();
    assert(whole@.take(n as int) =~= whole@);
    while n > 0 && whole[n - 1] != '/'
        invariant
            n <= whole.len(),
            head_len(whole@) == head_len(whole@.take(n as int)),
        decreases n,
    {
        assert(whole@.take(n as int).drop_last() =~= whole@.take(n - 1));
        n -= 1;
    }
    let head = slice_subrange(whole, 0, n);
    assert(head@ =~= whole@.take(n as int));
    trimmed_tail(head)
}

/// The relative path `name` inside the directory `dir`: one separator stands between them.
pub open spec fn joined(dir: Seq<char>, name: Seq<char>) -> Seq<char> {
    if dir.len() == 0 || dir.last() == '/' {
        dir + name
    } else {
        dir.push('/') + name
    }
}

/// The relative path `name` inside the directory `dir`.
pub fn join(dir: &str, name: &str) -> (r: String)
    ensures
        r@ == joined(dir@, name@),
{
    let mut out = dir.to_owned();
    let n = dir.unicode_len();
    if n > 0 && dir.get_char(n - 1) != '/' {
        out.push('/');
    }
    out.push_str(name);
    out
}

// ---------------------------------------------------------------------------------------------
// One path, however it is spelled

/// What a component counts as when paths are compared: `..` comes before every name.
pub open spec fn component_key(piece: Seq<char>) -> Seq<char> {
    if piece == seq!['.', '.'] {
        seq!['\u{3}', '\u{0}']
    } else {
        seq!['\u{4}'] + piece + seq!['\u{0}']
    }
}

/// What a list of components counts as when paths are compared.
pub open spec fn components_key(pieces: Seq<Seq<char>>) -> Seq<char>
    decreases pieces.len(),
{
    if pieces.len() == 0 {
        Seq::empty()
    } else {
        components_key(pieces.drop_last()) + component_key(pieces.last())
    }
}

/// What a path starts with when paths are compared: the root comes first, then a leading `.`.
pub open spec fn start_key(path: Seq<char>) -> Seq<char> {
    if path.len() > 0 && path[0] == '/' {
        seq!['\u{1}', '\u{0}']
    } else if path.len() > 0 && path[0] == '.' && (path.len() == 1 || path[1] == '/') {
        seq!['\u{2}', '\u{0}']
    } else {
        Seq::empty()
    }
}

/// A text that stands for a path however it is spelled: two paths with the same start and the same
/// components have one key, and keys are ordered as paths are, component by component.
pub open spec fn key_of(path: Seq<char>) -> Seq<char> {
    start_key(path) + components_key(components(path))
}

/// A text that stands for a path however it is spelled.
pub fn key(path: &str) -> (r: String)
    ensures
        r@ == key_of(path@),
{
    let all = text::chars(path);
    let whole = all.as_slice();
    let mut out = String::new();
    if whole.len() > 0 && whole[0] == '/' {
        out.push('\u{1}');
        out.push('\u{0}');
    } else if whole.len() > 0 && whole[0] == '.' && (whole.len() == 1 || whole[1] == '/') {
        out.push('\u{2}');
        out.push('\u{0}');
    }
    assert(out@ =~= start_key(path@));
    let pieces = parts(whole);
    let ghost views = text::pieces(pieces@);
    let ghost start = out@;
    let mut i: usize = 0;
    assert(start + components_key(views.take(0)) =~= start);
    while i < pieces.len()
        invariant
            i <= pieces.len(),
            views == text::pieces(pieces@),
            out@ == start + components_key(views.take(i as int)),
        decreases pieces.len() - i,
    {
        let piece = pieces[i];
        let ghost before = out@;
        if is_dots(piece) {
            out.push('\u{3}');
            out.push('\u{0}');
        } else {
            out.push('\u{4}');
            out.push_str(text::text(piece).as_str());
            out.push('\u{0}');
        }
        proof {
            let more = views.take(i + 1);
            assert(more.drop_last() =~= views.take(i as int));
            assert(more.last() == piece@);
            assert(out@ =~= before + component_key(piece@));
            assert(out@ =~= start + components_key(more));
        }
        i += 1;
    }
    assert(views.take(i as int) =~= views);
    out
}

} // verus!
