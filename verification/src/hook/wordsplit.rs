//! Splits a command line into a program and its arguments.
//!
//! Whitespace separates words. Quotes are word-internal: `a"b c"d` is the single word `ab cd`.
//! Both `'` and `"` quote, identically, and nothing is expanded. Inside a quoted run a backslash
//! escapes that run's quote and is an ordinary character otherwise. A quote that is never closed
//! is an error.

use vstd::prelude::*;

use crate::text;

verus! {

broadcast use crate::text::group_lists;

/// Why a command line cannot be split.
#[derive(Clone, Copy, Debug, Eq, PartialEq, Structural)]
pub enum SplitError {
    /// A quote is never closed.
    UnbalancedQuote {
        /// Where it was opened, counted in characters.
        position: usize,
    },
    /// There is no word.
    Empty,
}

impl SplitError {
    /// The words for the error.
    pub open spec fn words(self) -> Seq<char> {
        match self {
            SplitError::UnbalancedQuote { position } => "the quote opened at character "@
                + text::dec(position as nat) + " is never closed"@,
            SplitError::Empty => "it is empty"@,
        }
    }

    /// The words for the error.
    pub fn message(&self) -> (r: String)
        ensures
            r@ == self.words(),
    {
        match self {
            SplitError::UnbalancedQuote { position } => {
                let mut out = "the quote opened at character ".to_owned();
                text::push_decimal(&mut out, *position as u64);
                out.push_str(" is never closed");
                out
            },
            SplitError::Empty => "it is empty".to_owned(),
        }
    }
}

/// What a quoted run holds from `i` on, and where what follows it starts. `None` where it is never
/// closed.
pub open spec fn quoted(c: Seq<char>, i: int, quote: char) -> Option<(Seq<char>, int)>
    decreases c.len() - i,
{
    if i >= c.len() {
        None
    } else if c[i] == quote {
        Some((Seq::empty(), i + 1))
    } else {
        let escaped = c[i] == '\\' && i + 1 < c.len() && c[i + 1] == quote;
        let rest = if escaped {
            quoted(c, i + 2, quote)
        } else {
            quoted(c, i + 1, quote)
        };
        match rest {
            Some((run, end)) => Some(
                (
                    seq![if escaped {
                        quote
                    } else {
                        c[i]
                    }] + run,
                    end,
                ),
            ),
            None => None,
        }
    }
}

/// Whether a character opens a quoted run.
pub open spec fn is_quote(c: char) -> bool {
    c == '\'' || c == '"'
}

/// The rest of the word at `i`, and where it ends. `Err` is where a quote was opened that is never
/// closed.
pub open spec fn word_at(c: Seq<char>, i: int) -> Result<(Seq<char>, int), int>
    decreases c.len() - i,
{
    if i < 0 || i >= c.len() || text::is_space(c[i]) {
        Ok((Seq::empty(), i))
    } else if is_quote(c[i]) {
        proof {
            lemma_quoted(c, i + 1, c[i]);
        }
        match quoted(c, i + 1, c[i]) {
            Some((run, end)) => match word_at(c, end) {
                Ok((rest, stop)) => Ok((run + rest, stop)),
                Err(at) => Err(at),
            },
            None => Err(i),
        }
    } else {
        match word_at(c, i + 1) {
            Ok((rest, stop)) => Ok((seq![c[i]] + rest, stop)),
            Err(at) => Err(at),
        }
    }
}

/// A quoted run ends after it starts, inside the text.
pub proof fn lemma_quoted(c: Seq<char>, i: int, quote: char)
    ensures
        quoted(c, i, quote) is Some ==> i < (quoted(c, i, quote)->0).1 <= c.len(),
    decreases c.len() - i,
{
    if i < c.len() && c[i] != quote {
        if i + 1 < c.len() {
            lemma_quoted(c, i + 2, quote);
        }
        lemma_quoted(c, i + 1, quote);
    }
}

/// A word that starts at a character that is no whitespace ends after it starts, inside the text.
pub proof fn lemma_word_at(c: Seq<char>, i: int)
    requires
        0 <= i <= c.len(),
    ensures
        match word_at(c, i) {
            Ok((_, stop)) => i <= stop <= c.len() && (i < c.len() && !text::is_space(c[i]) ==> i
                < stop) && (stop < c.len() ==> text::is_space(c[stop])),
            Err(at) => i <= at < c.len(),
        },
    decreases c.len() - i,
{
    if i < c.len() && !text::is_space(c[i]) {
        if is_quote(c[i]) {
            lemma_quoted(c, i + 1, c[i]);
            if let Some((_, end)) = quoted(c, i + 1, c[i]) {
                lemma_word_at(c, end);
            }
        } else {
            lemma_word_at(c, i + 1);
        }
    }
}

/// The first index from `i` on that is no whitespace.
pub open spec fn next_word(c: Seq<char>, i: int) -> int
    decreases c.len() - i,
{
    if 0 <= i < c.len() && text::is_space(c[i]) {
        next_word(c, i + 1)
    } else {
        i
    }
}

/// [`next_word`] stays inside the text and finds no whitespace.
pub proof fn lemma_next_word(c: Seq<char>, i: int)
    requires
        0 <= i <= c.len(),
    ensures
        i <= next_word(c, i) <= c.len(),
        next_word(c, i) < c.len() ==> !text::is_space(c[next_word(c, i)]),
    decreases c.len() - i,
{
    if i < c.len() && text::is_space(c[i]) {
        lemma_next_word(c, i + 1);
    }
}

/// The words from `i` on. `Err` is where a quote was opened that is never closed.
pub open spec fn words_from(c: Seq<char>, i: int) -> Result<Seq<Seq<char>>, int>
    decreases c.len() - i,
{
    let at = next_word(c, i);
    if i < 0 || i > c.len() || at >= c.len() {
        Ok(Seq::empty())
    } else {
        proof {
            lemma_next_word(c, i);
            lemma_word_at(c, at);
        }
        match word_at(c, at) {
            Ok((word, stop)) => match words_from(c, stop) {
                Ok(rest) => Ok(seq![word] + rest),
                Err(e) => Err(e),
            },
            Err(e) => Err(e),
        }
    }
}

/// What [`split`] returns.
pub open spec fn split_of(s: Seq<char>) -> Result<Seq<Seq<char>>, SplitError> {
    match words_from(s, 0) {
        Ok(words) => if words.len() == 0 {
            Err(SplitError::Empty)
        } else {
            Ok(words)
        },
        Err(at) => Err(SplitError::UnbalancedQuote { position: at as usize }),
    }
}

/// The first index from `from` on that is no whitespace.
fn skip_whitespace(c: &[char], from: usize) -> (r: usize)
    requires
        from <= c.len(),
    ensures
        r == next_word(c@, from as int),
        from <= r <= c.len(),
        r < c.len() ==> !text::is_space(c@[r as int]),
{
    let mut i: usize = from;
    while i < c.len() && text::space(c[i])
        invariant
            from <= i <= c.len(),
            next_word(c@, from as int) == next_word(c@, i as int),
        decreases c.len() - i,
    {
        i += 1;
    }
    i
}

/// Reads the quoted run that was opened at `opening` and appends what it holds.
fn read_quoted(c: &[char], opening: usize, quote: char, into: &mut String) -> (r: Result<
    usize,
    SplitError,
>)
    requires
        opening < c.len(),
    ensures
        match quoted(c@, opening + 1, quote) {
            Some((run, end)) => {
                &&& r == Ok::<usize, SplitError>(end as usize)
                &&& opening < end <= c.len()
                &&& final(into)@ == old(into)@ + run
            },
            None => r == Err::<usize, SplitError>(
                SplitError::UnbalancedQuote { position: opening },
            ),
        },
{
    let ghost start = into@;
    let mut i: usize = opening + 1;
    proof {
        lemma_quoted(c@, opening + 1, quote);
        assert(start + Seq::<char>::empty() =~= start);
        if let Some((run, end)) = quoted(c@, i as int, quote) {
            assert(start + run =~= into@ + run);
        }
    }
    while i < c.len()
        invariant
            opening + 1 <= i,
            opening < c.len(),
            start == old(into)@,
            match quoted(c@, opening + 1, quote) {
                Some((run, end)) => {
                    &&& quoted(c@, i as int, quote) is Some
                    &&& (quoted(c@, i as int, quote)->0).1 == end
                    &&& start + run == into@ + (quoted(c@, i as int, quote)->0).0
                    &&& opening < end <= c.len()
                },
                None => quoted(c@, i as int, quote) is None,
            },
        decreases c.len() - i,
    {
        let current = c[i];
        let ghost was = into@;
        if current == quote {
            assert(was + Seq::<char>::empty() =~= was);
            return Ok(i + 1);
        }
        if current == '\\' && i + 1 < c.len() && c[i + 1] == quote {
            into.push(quote);
            proof {
                if let Some((run, _)) = quoted(c@, i + 2, quote) {
                    assert(was + (seq![quote] + run) =~= was.push(quote) + run);
                }
            }
            i += 2;
        } else {
            into.push(current);
            proof {
                if let Some((run, _)) = quoted(c@, i + 1, quote) {
                    assert(was + (seq![current] + run) =~= was.push(current) + run);
                }
            }
            i += 1;
        }
    }
    Err(SplitError::UnbalancedQuote { position: opening })
}

/// Reads the word at `from`.
fn read_word(c: &[char], from: usize) -> (r: Result<(String, usize), SplitError>)
    requires
        from <= c.len(),
    ensures
        match word_at(c@, from as int) {
            Ok((word, stop)) => r is Ok && r->Ok_0.0@ == word && r->Ok_0.1 == stop,
            Err(at) => r == Err::<(String, usize), SplitError>(
                SplitError::UnbalancedQuote { position: at as usize },
            ),
        },
{
    let mut word = String::new();
    let mut i: usize = from;
    proof {
        if let Ok((rest, _)) = word_at(c@, from as int) {
            assert(Seq::<char>::empty() + rest =~= rest);
        }
    }
    while i < c.len() && !text::space(c[i])
        invariant
            from <= i <= c.len(),
            match word_at(c@, from as int) {
                Ok((whole, stop)) => {
                    &&& word_at(c@, i as int) is Ok
                    &&& word_at(c@, i as int)->Ok_0.1 == stop
                    &&& whole == word@ + word_at(c@, i as int)->Ok_0.0
                },
                Err(at) => word_at(c@, i as int) == Err::<(Seq<char>, int), int>(at),
            },
        decreases c.len() - i,
    {
        let current = c[i];
        let ghost was = word@;
        if current == '\'' || current == '"' {
            match read_quoted(c, i, current, &mut word) {
                Ok(next) => {
                    proof {
                        if let Ok((rest, _)) = word_at(c@, next as int) {
                            let run = (quoted(c@, i + 1, current)->0).0;
                            assert(was + (run + rest) =~= was + run + rest);
                        }
                    }
                    i = next;
                },
                Err(error) => {
                    return Err(error);
                },
            }
        } else {
            word.push(current);
            proof {
                if let Ok((rest, _)) = word_at(c@, i + 1) {
                    assert(was + (seq![current] + rest) =~= was.push(current) + rest);
                }
            }
            i += 1;
        }
    }
    assert(word@ + Seq::<char>::empty() =~= word@);
    Ok((word, i))
}

/// Splits a command line into words.
pub fn split(value: &str) -> (r: Result<Vec<String>, SplitError>)
    ensures
        match r {
            Ok(words) => split_of(value@) == Ok::<Seq<Seq<char>>, SplitError>(text::texts(words@)),
            Err(error) => split_of(value@) == Err::<Seq<Seq<char>>, SplitError>(error),
        },
{
    let all = text::chars(value);
    let c = all.as_slice();
    let mut words: Vec<String> = Vec::new();
    let mut i = skip_whitespace(c, 0);
    proof {
        lemma_next_of_next(c@, 0);
        if let Ok(rest) = words_from(c@, 0) {
            assert(text::texts(words@) + rest =~= rest);
        }
    }
    while i < c.len()
        invariant
            i <= c.len(),
            c@ == value@,
            i < c.len() ==> !text::is_space(c@[i as int]),
            match words_from(c@, 0) {
                Ok(whole) => words_from(c@, i as int) is Ok && whole == text::texts(words@)
                    + words_from(c@, i as int)->Ok_0,
                Err(at) => words_from(c@, i as int) == Err::<Seq<Seq<char>>, int>(at),
            },
        decreases c.len() - i,
    {
        proof {
            lemma_word_at(c@, i as int);
            assert(next_word(c@, i as int) == i);
        }
        match read_word(c, i) {
            Ok((word, next)) => {
                let ghost was = text::texts(words@);
                words.push(word);
                let after = skip_whitespace(c, next);
                proof {
                    lemma_next_of_next(c@, next as int);
                    if let Ok(rest) = words_from(c@, next as int) {
                        assert(was + (seq![word@] + rest) =~= was.push(word@) + rest);
                    }
                }
                i = after;
            },
            Err(error) => {
                return Err(error);
            },
        }
    }
    assert(words_from(c@, i as int) == Ok::<Seq<Seq<char>>, int>(Seq::empty()));
    assert(text::texts(words@) + Seq::<Seq<char>>::empty() =~= text::texts(words@));
    if words.len() == 0 {
        return Err(SplitError::Empty);
    }
    Ok(words)
}

/// The words from `i` on are the words from the next word on.
proof fn lemma_next_of_next(c: Seq<char>, i: int)
    requires
        0 <= i <= c.len(),
    ensures
        words_from(c, next_word(c, i)) == words_from(c, i),
{
    lemma_next_word(c, i);
    assert(next_word(c, next_word(c, i)) == next_word(c, i));
}

/// A command line without quotes is split on whitespace alone.
pub proof fn without_quotes_whitespace_splits(s: Seq<char>, i: int)
    requires
        0 <= i <= s.len(),
        forall|k: int| 0 <= k < s.len() ==> !is_quote(#[trigger] s[k]),
    ensures
        words_from(s, i) == Ok::<Seq<Seq<char>>, int>(text::words(s.skip(i))),
    decreases s.len() - i,
{
    let at = next_word(s, i);
    lemma_next_word(s, i);
    lemma_trim_is_next_word(s, i);
    if at < s.len() {
        let t = s.skip(at);
        lemma_plain_word(s, at);
        text::lemma_word_len(t);
        let n = text::word_len(t);
        assert(t[0] == s[at]);
        assert(n > 0);
        without_quotes_whitespace_splits(s, at + n);
        assert(t.skip(n) =~= s.skip(at + n));
    } else {
        assert(s.skip(at) =~= Seq::<char>::empty());
    }
}

/// Skipping whitespace by index and by text is the same.
proof fn lemma_trim_is_next_word(s: Seq<char>, i: int)
    requires
        0 <= i <= s.len(),
    ensures
        text::trim_start(s.skip(i)) == s.skip(next_word(s, i)),
    decreases s.len() - i,
{
    if i < s.len() {
        assert(s.skip(i)[0] == s[i]);
        if text::is_space(s[i]) {
            lemma_trim_is_next_word(s, i + 1);
            assert(s.skip(i).skip(1) =~= s.skip(i + 1));
        }
    }
}

/// Without quotes a word runs up to the next whitespace.
proof fn lemma_plain_word(s: Seq<char>, i: int)
    requires
        0 <= i <= s.len(),
        forall|k: int| 0 <= k < s.len() ==> !is_quote(#[trigger] s[k]),
    ensures
        word_at(s, i) == Ok::<(Seq<char>, int), int>(
            (s.skip(i).take(text::word_len(s.skip(i))), i + text::word_len(s.skip(i))),
        ),
    decreases s.len() - i,
{
    let t = s.skip(i);
    text::lemma_word_len(t);
    if i < s.len() && !text::is_space(s[i]) {
        assert(t[0] == s[i]);
        lemma_plain_word(s, i + 1);
        assert(t.skip(1) =~= s.skip(i + 1));
        let n = text::word_len(s.skip(i + 1));
        text::lemma_word_len(s.skip(i + 1));
        assert(seq![s[i]] + s.skip(i + 1).take(n) =~= t.take(n + 1));
    } else {
        if i < s.len() {
            assert(t[0] == s[i]);
        }
        assert(t.take(0) =~= Seq::<char>::empty());
    }
}

/// A quoted run without quotes or backslashes in it is one word, whitespace included.
pub proof fn a_quoted_run_is_one_word(s: Seq<char>, quote: char)
    requires
        is_quote(quote),
        forall|k: int| 0 <= k < s.len() ==> #[trigger] s[k] != quote && s[k] != '\\',
    ensures
        split_of(seq![quote] + s + seq![quote]) == Ok::<Seq<Seq<char>>, SplitError>(seq![s]),
{
    let c = seq![quote] + s + seq![quote];
    lemma_plain_run(c, 1, s, quote);
    let n = c.len() as int;
    assert(c[0] == quote);
    assert(word_at(c, n) == Ok::<(Seq<char>, int), int>((Seq::empty(), n)));
    assert(s + Seq::<char>::empty() =~= s);
    assert(next_word(c, 0) == 0);
    assert(word_at(c, 0) == Ok::<(Seq<char>, int), int>((s, n)));
    assert(words_from(c, n) == Ok::<Seq<Seq<char>>, int>(Seq::empty()));
    assert(seq![s] + Seq::<Seq<char>>::empty() =~= seq![s]);
}

/// What a run holds up to its closing quote.
proof fn lemma_plain_run(c: Seq<char>, i: int, s: Seq<char>, quote: char)
    requires
        0 <= i,
        c.len() == i + s.len() + 1,
        forall|k: int| 0 <= k < s.len() ==> #[trigger] s[k] != quote && s[k] != '\\',
        forall|k: int| 0 <= k < s.len() ==> #[trigger] c[i + k] == s[k],
        c[i + s.len()] == quote,
    ensures
        quoted(c, i, quote) == Some((s, c.len() as int)),
    decreases s.len(),
{
    if s.len() == 0 {
        assert(s =~= Seq::<char>::empty());
    } else {
        let t = s.skip(1);
        assert(c[i + 0] == s[0]);
        assert(s[0] != quote && s[0] != '\\');
        assert forall|k: int| 0 <= k < t.len() implies #[trigger] t[k] != quote && t[k]
            != '\\' by {
            assert(t[k] == s[k + 1]);
        }
        assert forall|k: int| 0 <= k < t.len() implies #[trigger] c[i + 1 + k] == t[k] by {
            assert(c[i + (k + 1)] == s[k + 1]);
        }
        lemma_plain_run(c, i + 1, t, quote);
        assert(seq![s[0]] + t =~= s);
    }
}

} // verus!
