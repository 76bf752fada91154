//! Bytes: the lines of a stream that may be no text, and the text that bytes encode.

use vstd::prelude::*;
use vstd::slice::slice_subrange;
use vstd::utf8::{
    encode_scalar, encode_utf8, encode_utf8_first_scalar, has_width_1_encoding,
    last_continuation_byte, leading_byte_width_1, leading_byte_width_2, leading_byte_width_3,
    leading_byte_width_4, second_last_continuation_byte, third_last_continuation_byte,
};

use crate::text;

verus! {

/// Whether two slices hold the same bytes.
pub fn same(left: &[u8], right: &[u8]) -> (r: bool)
    ensures
        r == (left@ == right@),
{
    if left.len() != right.len() {
        return false;
    }
    let mut i: usize = 0;
    while i < left.len()
        invariant
            i <= left.len(),
            left.len() == right.len(),
            forall|k: int| 0 <= k < i ==> left@[k] == right@[k],
        decreases left.len() - i,
    {
        if left[i] != right[i] {
            return false;
        }
        i += 1;
    }
    assert(left@ =~= right@);
    true
}

/// The text that bytes encode.
pub open spec fn text_in(bytes: Seq<u8>) -> Option<Seq<char>> {
    if vstd::utf8::valid_utf8(bytes) {
        Some(vstd::utf8::decode_utf8(bytes))
    } else {
        None
    }
}

/// The text that bytes encode, where they encode one.
pub fn text_of(bytes: Vec<u8>) -> (r: Option<String>)
    ensures
        text::maybe(r) == text_in(bytes@),
{
    match text::decoded(bytes) {
        Some(s) => {
            proof {
                vstd::utf8::encode_utf8_valid_utf8(s@);
                vstd::utf8::encode_utf8_decode_utf8(s@);
            }
            Some(s)
        },
        None => None,
    }
}

// ---------------------------------------------------------------------------------------------
// Lines

/// The lines that end in `bytes`, without the newline that ends each.
pub open spec fn complete(bytes: Seq<u8>) -> Seq<Seq<u8>>
    decreases bytes.len(),
{
    if bytes.len() == 0 {
        Seq::empty()
    } else if bytes.last() == 10 {
        complete(bytes.drop_last()).push(partial(bytes.drop_last()))
    } else {
        complete(bytes.drop_last())
    }
}

/// What follows the last newline of `bytes`.
pub open spec fn partial(bytes: Seq<u8>) -> Seq<u8>
    decreases bytes.len(),
{
    if bytes.len() == 0 || bytes.last() == 10 {
        Seq::empty()
    } else {
        partial(bytes.drop_last()).push(bytes.last())
    }
}

/// A line without the carriage return that belongs to its end.
pub open spec fn bare(line: Seq<u8>) -> Seq<u8> {
    if line.len() > 0 && line.last() == 13 {
        line.drop_last()
    } else {
        line
    }
}

/// Lines without the carriage return that belongs to the end of each.
pub open spec fn bare_lines(lines: Seq<Seq<u8>>) -> Seq<Seq<u8>> {
    Seq::new(lines.len(), |i: int| bare(lines[i]))
}

/// One line more.
pub proof fn lemma_bare_push(lines: Seq<Seq<u8>>, line: Seq<u8>)
    ensures
        bare_lines(lines.push(line)) == bare_lines(lines).push(bare(line)),
{
    assert(bare_lines(lines.push(line)) =~= bare_lines(lines).push(bare(line)));
}

/// The lines of `bytes`, without what ends each: a newline, and a carriage return before it. What
/// follows the last newline is a line where it is anything; nothing ends it.
pub open spec fn byte_lines(bytes: Seq<u8>) -> Seq<Seq<u8>> {
    if partial(bytes).len() == 0 {
        bare_lines(complete(bytes))
    } else {
        bare_lines(complete(bytes)).push(partial(bytes))
    }
}

/// A line without the carriage return that belongs to its end.
pub fn without_return<'a>(line: &'a [u8]) -> (r: &'a [u8])
    ensures
        r@ == bare(line@),
{
    let n = line.len();
    if n > 0 && line[n - 1] == 13 {
        let r = slice_subrange(line, 0, n - 1);
        assert(r@ =~= line@.drop_last());
        r
    } else {
        line
    }
}

/// The views of a list of slices.
pub open spec fn slices(list: Seq<&[u8]>) -> Seq<Seq<u8>> {
    Seq::new(list.len(), |i: int| list[i]@)
}

/// The lines of `bytes`, without what ends each.
pub fn split_lines<'a>(bytes: &'a [u8]) -> (r: Vec<&'a [u8]>)
    ensures
        slices(r@) == byte_lines(bytes@),
{
    let mut out: Vec<&'a [u8]> = Vec::new();
    let mut from: usize = 0;
    let mut i: usize = 0;
    proof {
        assert(bytes@.take(0) =~= Seq::<u8>::empty());
        assert(slices(out@) =~= bare_lines(Seq::<Seq<u8>>::empty()));
        assert(bytes@.subrange(0, 0) =~= Seq::<u8>::empty());
    }
    while i < bytes.len()
        invariant
            from <= i <= bytes.len(),
            slices(out@) == bare_lines(complete(bytes@.take(i as int))),
            partial(bytes@.take(i as int)) == bytes@.subrange(from as int, i as int),
        decreases bytes.len() - i,
    {
        let ghost before = slices(out@);
        proof {
            let more = bytes@.take(i + 1);
            assert(more.drop_last() =~= bytes@.take(i as int));
            assert(more.last() == bytes@[i as int]);
            assert(bytes@.subrange(from as int, i + 1) =~= bytes@.subrange(
                from as int,
                i as int,
            ).push(bytes@[i as int]));
            assert(bytes@.subrange(i + 1, i + 1) =~= Seq::<u8>::empty());
        }
        if bytes[i] == 10 {
            let whole = slice_subrange(bytes, from, i);
            let line = without_return(whole);
            out.push(line);
            proof {
                assert(slices(out@) =~= before.push(line@));
                lemma_bare_push(complete(bytes@.take(i as int)), whole@);
            }
            from = i + 1;
        }
        i += 1;
    }
    assert(bytes@.take(i as int) =~= bytes@);
    if from < bytes.len() {
        let ghost before = slices(out@);
        let line = slice_subrange(bytes, from, bytes.len());
        out.push(line);
        assert(slices(out@) =~= before.push(line@));
    }
    out
}

// ---------------------------------------------------------------------------------------------
// Laws

/// The lines that end in some bytes, each ended, and the rest make up the bytes.
pub proof fn lines_make_up_the_bytes(bytes: Seq<u8>)
    ensures
        ended(complete(bytes)) + partial(bytes) == bytes,
    decreases bytes.len(),
{
    if bytes.len() == 0 {
        assert(ended(complete(bytes)) + partial(bytes) =~= bytes);
    } else {
        let before = bytes.drop_last();
        lines_make_up_the_bytes(before);
        assert(bytes =~= before.push(bytes.last()));
        if bytes.last() == 10 {
            assert(complete(bytes).drop_last() =~= complete(before));
            assert(ended(complete(bytes)) =~= ended(complete(before)) + partial(before).push(10u8));
            assert(ended(complete(bytes)) + partial(bytes) =~= bytes);
        } else {
            assert(ended(complete(bytes)) + partial(bytes) =~= bytes);
        }
    }
}

/// Lines, each followed by a newline.
pub open spec fn ended(lines: Seq<Seq<u8>>) -> Seq<u8>
    decreases lines.len(),
{
    if lines.len() == 0 {
        Seq::empty()
    } else {
        ended(lines.drop_last()) + lines.last().push(10)
    }
}

/// The lines that end in a text.
spec fn ended_lines(s: Seq<char>) -> Seq<Seq<char>>
    decreases s.len(),
{
    if s.len() == 0 {
        Seq::empty()
    } else if s.last() == '\n' {
        ended_lines(s.drop_last()).push(open_line(s.drop_last()))
    } else {
        ended_lines(s.drop_last())
    }
}

/// What follows the last newline of a text.
spec fn open_line(s: Seq<char>) -> Seq<char>
    decreases s.len(),
{
    if s.len() == 0 || s.last() == '\n' {
        Seq::empty()
    } else {
        open_line(s.drop_last()).push(s.last())
    }
}

/// The bytes of a character hold a newline, or a carriage return, only where it is one.
proof fn lemma_line_end_bytes(c: char)
    ensures
        c == '\n' ==> encode_scalar(c as u32) == seq![10u8],
        c == '\r' ==> encode_scalar(c as u32) == seq![13u8],
        c != '\n' ==> !encode_scalar(c as u32).contains(10),
        c != '\r' ==> !encode_scalar(c as u32).contains(13),
        encode_scalar(c as u32).len() > 0,
{
    let n = c as u32;
    if has_width_1_encoding(n) {
        assert(leading_byte_width_1(n) == n as u8) by (bit_vector)
            requires
                has_width_1_encoding(n),
        ;
        assert(encode_scalar(n) =~= seq![n as u8]);
        if c == '\n' {
            assert(n == 10);
        } else {
            assert(n != 10);
            assert(n as u8 != 10);
        }
        if c == '\r' {
            assert(n == 13);
        } else {
            assert(n != 13);
            assert(n as u8 != 13);
        }
    } else {
        assert(c != '\n' && c != '\r');
        assert(leading_byte_width_2(n) >= 0x80) by (bit_vector);
        assert(leading_byte_width_3(n) >= 0x80) by (bit_vector);
        assert(leading_byte_width_4(n) >= 0x80) by (bit_vector);
        assert(last_continuation_byte(n) >= 0x80) by (bit_vector);
        assert(second_last_continuation_byte(n) >= 0x80) by (bit_vector);
        assert(third_last_continuation_byte(n) >= 0x80) by (bit_vector);
    }
}

/// The bytes of a text that grows by a character grow by its bytes.
proof fn lemma_encode_push(s: Seq<char>, c: char)
    ensures
        encode_utf8(s.push(c)) == encode_utf8(s) + encode_scalar(c as u32),
    decreases s.len(),
{
    if s.len() == 0 {
        let one = s.push(c);
        assert(one.drop_first() =~= s);
        assert(one[0] == c);
        reveal_with_fuel(encode_utf8, 2);
        assert(encode_utf8(s) =~= Seq::<u8>::empty());
        assert(encode_utf8(one) =~= encode_scalar(c as u32) + encode_utf8(s));
        assert(encode_utf8(one) =~= encode_utf8(s) + encode_scalar(c as u32));
    } else {
        lemma_encode_push(s.drop_first(), c);
        assert(s.push(c).drop_first() =~= s.drop_first().push(c));
        assert(encode_utf8(s.push(c)) =~= encode_utf8(s) + encode_scalar(c as u32));
    }
}

/// Bytes without a newline extend what follows the last one.
proof fn lemma_plain_bytes(bytes: Seq<u8>, more: Seq<u8>)
    requires
        !more.contains(10),
    ensures
        complete(bytes + more) == complete(bytes),
        partial(bytes + more) == partial(bytes) + more,
    decreases more.len(),
{
    if more.len() == 0 {
        assert(bytes + more =~= bytes);
        assert(partial(bytes) + more =~= partial(bytes));
    } else {
        let fewer = more.drop_last();
        assert(!fewer.contains(10)) by {
            if fewer.contains(10) {
                let i = choose|i: int| 0 <= i < fewer.len() && fewer[i] == 10;
                assert(more[i] == 10);
            }
        }
        lemma_plain_bytes(bytes, fewer);
        assert((bytes + more).drop_last() =~= bytes + fewer);
        assert((bytes + more).last() == more.last());
        assert(more.contains(more.last()));
        assert((partial(bytes) + fewer).push(more.last()) =~= partial(bytes) + more);
    }
}

/// The bytes of a line are free of newlines, and its newline is one byte.
pub proof fn lemma_encoded_line(line: Seq<char>)
    requires
        !line.contains('\n'),
    ensures
        encode_utf8(line.push('\n')) == encode_utf8(line).push(10),
        !encode_utf8(line).contains(10),
    decreases line.len(),
{
    lemma_encode_push(line, '\n');
    lemma_line_end_bytes('\n');
    assert(encode_utf8(line) + seq![10u8] =~= encode_utf8(line).push(10));
    if line.len() > 0 {
        let before = line.drop_last();
        let c = line.last();
        assert(line =~= before.push(c));
        assert(line.contains(c));
        if before.contains('\n') {
            let i = choose|i: int| 0 <= i < before.len() && before[i] == '\n';
            assert(line[i] == '\n');
        }
        lemma_encoded_line(before);
        lemma_encode_push(before, c);
        lemma_line_end_bytes(c);
        let end = encode_scalar(c as u32);
        let all = encode_utf8(before) + end;
        if all.contains(10) {
            let i = choose|i: int| 0 <= i < all.len() && all[i] == 10;
            if i < encode_utf8(before).len() {
                assert(encode_utf8(before)[i] == 10);
            } else {
                assert(end[i - encode_utf8(before).len()] == 10);
            }
        }
    }
}

/// The lines of a text's bytes are the bytes of its lines.
proof fn lemma_encoded_lines(s: Seq<char>)
    ensures
        complete(encode_utf8(s)) == encoded(ended_lines(s)),
        partial(encode_utf8(s)) == encode_utf8(open_line(s)),
    decreases s.len(),
{
    if s.len() == 0 {
        assert(complete(encode_utf8(s)) =~= encoded(ended_lines(s)));
    } else {
        let before = s.drop_last();
        let c = s.last();
        lemma_encoded_lines(before);
        assert(s =~= before.push(c));
        lemma_encode_push(before, c);
        lemma_line_end_bytes(c);
        let bytes = encode_utf8(before);
        if c == '\n' {
            assert(bytes + seq![10u8] =~= bytes.push(10));
            assert(bytes.push(10).drop_last() =~= bytes);
            assert(complete(encode_utf8(s)) =~= encoded(ended_lines(s)));
        } else {
            lemma_plain_bytes(bytes, encode_scalar(c as u32));
            lemma_encode_push(open_line(before), c);
        }
    }
}

/// The bytes of each text of a list.
pub open spec fn encoded(list: Seq<Seq<char>>) -> Seq<Seq<u8>> {
    Seq::new(list.len(), |i: int| encode_utf8(list[i]))
}

/// A text is its lines, each ended, and what follows the last newline. No line holds a newline.
proof fn lemma_text_of_lines(s: Seq<char>)
    ensures
        text::unlines(ended_lines(s)) + open_line(s) == s,
        forall|i: int| 0 <= i < ended_lines(s).len() ==> !(#[trigger] ended_lines(s)[i]).contains(
            '\n',
        ),
        !open_line(s).contains('\n'),
    decreases s.len(),
{
    if s.len() == 0 {
        assert(text::unlines(ended_lines(s)) + open_line(s) =~= s);
    } else {
        let before = s.drop_last();
        let c = s.last();
        lemma_text_of_lines(before);
        assert(s =~= before.push(c));
        if c == '\n' {
            text::lemma_unlines_push(ended_lines(before), open_line(before));
            assert(text::unlines(ended_lines(s)) + open_line(s) =~= s);
        } else {
            assert(text::unlines(ended_lines(s)) + open_line(s) =~= s);
            let line = open_line(s);
            if line.contains('\n') {
                let i = choose|i: int| 0 <= i < line.len() && line[i] == '\n';
                if i < open_line(before).len() {
                    assert(open_line(before)[i] == '\n');
                }
            }
        }
    }
}

/// Ended lines without a newline inside read back, each without its carriage return.
proof fn lemma_lines_of_ended(list: Seq<Seq<char>>)
    requires
        forall|i: int| 0 <= i < list.len() ==> !(#[trigger] list[i]).contains('\n'),
    ensures
        text::lines(text::unlines(list)) == list.map_values(|l: Seq<char>| text::without_return(l)),
        text::ends_line(text::unlines(list)),
    decreases list.len(),
{
    let bare = |l: Seq<char>| text::without_return(l);
    if list.len() == 0 {
        assert(text::lines(text::unlines(list)) =~= list.map_values(bare));
    } else {
        let head = list.drop_last();
        let line = list.last();
        assert forall|i: int| 0 <= i < head.len() implies !(#[trigger] head[i]).contains('\n') by {
            assert(head[i] == list[i]);
        }
        lemma_lines_of_ended(head);
        assert(!list[list.len() - 1].contains('\n'));
        let one = line.push('\n');
        text::lemma_lines_add(text::unlines(head), one);
        text::lemma_split_head(line, '\n', Seq::empty());
        assert(one + Seq::<char>::empty() =~= one);
        text::lemma_first(one, '\n');
        assert(one.take(line.len() as int) =~= line);
        assert(one.skip(line.len() as int + 1) =~= Seq::<char>::empty());
        assert(text::lines(Seq::<char>::empty()) =~= Seq::<Seq<char>>::empty());
        assert(text::lines(one) =~= seq![text::without_return(line)]);
        assert(text::lines(text::unlines(list)) =~= list.map_values(bare));
    }
}

/// The carriage return that ends a line is the byte that ends its bytes.
proof fn lemma_encoded_bare(line: Seq<char>)
    ensures
        encode_utf8(text::without_return(line)) == bare(encode_utf8(line)),
{
    if line.len() > 0 {
        let before = line.drop_last();
        let c = line.last();
        assert(line =~= before.push(c));
        lemma_encode_push(before, c);
        lemma_line_end_bytes(c);
        let end = encode_scalar(c as u32);
        let bytes = encode_utf8(before) + end;
        assert(bytes.last() == end.last());
        assert(end.contains(end.last()));
        if c == '\r' {
            assert(bytes.drop_last() =~= encode_utf8(before));
        }
    }
}

/// The lines of a text's bytes are the bytes of the text's lines: a stream can be cut into lines
/// before it is decoded.
pub proof fn lines_can_be_cut_before_decoding(s: Seq<char>)
    ensures
        byte_lines(encode_utf8(s)) == encoded(text::lines(s)),
{
    lemma_encoded_lines(s);
    lemma_text_of_lines(s);
    let lines = ended_lines(s);
    let rest = open_line(s);
    let shown = lines.map_values(|l: Seq<char>| text::without_return(l));
    lemma_lines_of_ended(lines);
    text::lemma_lines_add(text::unlines(lines), rest);
    assert forall|i: int| 0 <= i < lines.len() implies bare_lines(encoded(lines))[i] == encoded(
        shown,
    )[i] by {
        lemma_encoded_bare(lines[i]);
    }
    assert(bare_lines(encoded(lines)) =~= encoded(shown));
    if rest.len() == 0 {
        assert(text::lines(rest) =~= Seq::<Seq<char>>::empty());
        assert(text::lines(s) =~= shown);
        assert(encode_utf8(rest) =~= Seq::<u8>::empty());
    } else {
        text::lemma_split_whole(rest, '\n');
        text::lemma_first(rest, '\n');
        assert(text::lines(rest) =~= seq![rest]);
        assert(text::lines(s) =~= shown.push(rest));
        encode_utf8_first_scalar(rest);
        assert(encode_utf8(rest).len() > 0);
        assert(encoded(text::lines(s)) =~= encoded(shown).push(encode_utf8(rest)));
    }
}

} // verus!
