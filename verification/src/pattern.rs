//! Which texts a list of patterns matches.
//!
//! What a pattern means is for the package database to say, which reads the same patterns out of
//! its configuration. Here the answers are data.

use vstd::prelude::*;

use crate::table::TextSet;
use crate::text;

verus! {

broadcast use crate::text::group_lists;

/// What is known of one list of patterns.
#[derive(Debug)]
pub struct Answer {
    /// The patterns, in their order.
    pub patterns: Vec<String>,
    /// The texts that the list matches.
    pub matched: TextSet,
}

/// What is known of lists of patterns.
#[derive(Debug)]
pub struct Answers {
    /// One answer for each list. A list without one matches nothing.
    pub lists: Vec<Answer>,
}

impl Default for Answers {
    /// Nothing matches.
    fn default() -> (r: Self)
        ensures
            forall|patterns: Seq<Seq<char>>, s: Seq<char>| !#[trigger] r.matches(patterns, s),
    {
        Answers { lists: Vec::new() }
    }
}

impl Answers {
    /// Whether a list of patterns matches a text.
    pub open spec fn matches(self, patterns: Seq<Seq<char>>, s: Seq<char>) -> bool {
        exists|i: int|
            0 <= i < self.lists@.len() && text::texts((#[trigger] self.lists@[i]).patterns@)
                == patterns && self.lists@[i].matched@.contains(s)
    }

    /// Whether a list of patterns matches a text.
    pub fn matches_any(&self, patterns: &Vec<String>, s: &str) -> (r: bool)
        ensures
            r == self.matches(text::texts(patterns@), s@),
    {
        let mut i: usize = 0;
        while i < self.lists.len()
            invariant
                i <= self.lists.len(),
                forall|k: int|
                    0 <= k < i ==> !(text::texts((#[trigger] self.lists@[k]).patterns@)
                        == text::texts(patterns@) && self.lists@[k].matched@.contains(s@)),
            decreases self.lists.len() - i,
        {
            let answer = &self.lists[i];
            if same_list(&answer.patterns, patterns) && answer.matched.contains(s) {
                return true;
            }
            i += 1;
        }
        false
    }
}

/// Whether two lists hold the same texts.
fn same_list(a: &Vec<String>, b: &Vec<String>) -> (r: bool)
    ensures
        r == (text::texts(a@) == text::texts(b@)),
{
    if a.len() != b.len() {
        assert(text::texts(a@).len() != text::texts(b@).len());
        return false;
    }
    let mut i: usize = 0;
    while i < a.len()
        invariant
            i <= a.len(),
            a.len() == b.len(),
            forall|k: int| 0 <= k < i ==> a@[k]@ == b@[k]@,
        decreases a.len() - i,
    {
        if !text::same(a[i].as_str(), b[i].as_str()) {
            assert(text::texts(a@)[i as int] != text::texts(b@)[i as int]);
            return false;
        }
        i += 1;
    }
    assert(text::texts(a@) =~= text::texts(b@));
    true
}

} // verus!
