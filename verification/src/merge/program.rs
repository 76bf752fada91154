//! The commands that show and merge a pending file.
//!
//! A program is configured as one command line. It is split the way a hook's `Exec` is, and the
//! paths are appended to its arguments; no shell is involved.

use vstd::prelude::*;

use crate::hook::wordsplit;
use crate::hook::wordsplit::SplitError;
use crate::text;

verus! {

broadcast use crate::text::group_lists;

/// The program that shows a difference, unless another is configured.
pub const DEFAULT_DIFFPROG: &'static str = "diff -u";

/// The program that merges, unless another is configured.
pub const DEFAULT_MERGEPROG: &'static str = "diff3 -m";

/// A program and its arguments.
#[derive(Clone, Debug, Eq, PartialEq)]
pub struct Invocation {
    /// The program.
    pub program: String,
    /// Its arguments.
    pub arguments: Vec<String>,
}

/// What an [`Invocation`] holds.
pub struct InvocationView {
    /// The program.
    pub program: Seq<char>,
    /// Its arguments.
    pub arguments: Seq<Seq<char>>,
}

impl View for Invocation {
    type V = InvocationView;

    open spec fn view(&self) -> InvocationView {
        InvocationView { program: self.program@, arguments: text::texts(self.arguments@) }
    }
}

/// Splits a configured program into words.
pub fn parse_program(value: &str) -> (r: Result<Vec<String>, SplitError>)
    ensures
        match r {
            Ok(words) => wordsplit::split_of(value@) == Ok::<Seq<Seq<char>>, SplitError>(
                text::texts(words@),
            ),
            Err(error) => wordsplit::split_of(value@) == Err::<Seq<Seq<char>>, SplitError>(error),
        },
{
    wordsplit::split(value)
}

/// A program's words with paths behind them: there is none without a program.
pub open spec fn built(words: Seq<Seq<char>>, paths: Seq<Seq<char>>) -> Option<InvocationView> {
    if words.len() == 0 {
        None
    } else {
        Some(InvocationView { program: words[0], arguments: words.skip(1) + paths })
    }
}

/// The view of an invocation that may be missing.
pub open spec fn maybe_invocation(r: Option<Invocation>) -> Option<InvocationView> {
    match r {
        Some(invocation) => Some(invocation@),
        None => None,
    }
}

/// Shows how a pending file differs from its target.
pub fn two_way_diff(diffprog: &Vec<String>, pacfile: &str, target: &str) -> (r: Option<Invocation>)
    ensures
        maybe_invocation(r) == built(text::texts(diffprog@), seq![pacfile@, target@]),
{
    let mut paths: Vec<String> = Vec::new();
    paths.push(pacfile.to_owned());
    paths.push(target.to_owned());
    assert(text::texts(paths@) =~= seq![pacfile@, target@]);
    build(diffprog, paths)
}

/// Shows how a pending file and its target differ from what both started from.
pub fn three_way_diff(diffprog: &Vec<String>, pacfile: &str, base: &str, target: &str) -> (r: Option<
    Invocation,
>)
    ensures
        maybe_invocation(r) == built(text::texts(diffprog@), seq![pacfile@, base@, target@]),
{
    let mut paths: Vec<String> = Vec::new();
    paths.push(pacfile.to_owned());
    paths.push(base.to_owned());
    paths.push(target.to_owned());
    assert(text::texts(paths@) =~= seq![pacfile@, base@, target@]);
    build(diffprog, paths)
}

/// Merges what the user has with what the package ships.
pub fn three_way_merge(mergeprog: &Vec<String>, mine: &str, base: &str, theirs: &str) -> (r: Option<
    Invocation,
>)
    ensures
        maybe_invocation(r) == built(text::texts(mergeprog@), seq![mine@, base@, theirs@]),
{
    let mut paths: Vec<String> = Vec::new();
    paths.push(mine.to_owned());
    paths.push(base.to_owned());
    paths.push(theirs.to_owned());
    assert(text::texts(paths@) =~= seq![mine@, base@, theirs@]);
    build(mergeprog, paths)
}

/// Shows what a merge changes in the target.
pub fn review_diff(diffprog: &Vec<String>, target: &str, merged: &str) -> (r: Option<Invocation>)
    ensures
        maybe_invocation(r) == built(text::texts(diffprog@), seq![target@, merged@]),
{
    let mut paths: Vec<String> = Vec::new();
    paths.push(target.to_owned());
    paths.push(merged.to_owned());
    assert(text::texts(paths@) =~= seq![target@, merged@]);
    build(diffprog, paths)
}

/// Appends paths to a program's words.
fn build(words: &Vec<String>, paths: Vec<String>) -> (r: Option<Invocation>)
    ensures
        maybe_invocation(r) == built(text::texts(words@), text::texts(paths@)),
{
    if words.len() == 0 {
        return None;
    }
    let mut arguments: Vec<String> = Vec::new();
    let ghost all = text::texts(words@);
    let ghost tail = text::texts(paths@);
    let mut i: usize = 1;
    assert(text::texts(arguments@) =~= all.subrange(1, 1));
    while i < words.len()
        invariant
            1 <= i <= words.len(),
            all == text::texts(words@),
            text::texts(arguments@) == all.subrange(1, i as int),
        decreases words.len() - i,
    {
        arguments.push(words[i].clone());
        assert(all.subrange(1, i + 1) =~= all.subrange(1, i as int).push(all[i as int]));
        i += 1;
    }
    assert(all.subrange(1, i as int) =~= all.skip(1));
    let mut j: usize = 0;
    assert(all.skip(1) + tail.take(0) =~= all.skip(1));
    while j < paths.len()
        invariant
            j <= paths.len(),
            tail == text::texts(paths@),
            text::texts(arguments@) == all.skip(1) + tail.take(j as int),
        decreases paths.len() - j,
    {
        arguments.push(paths[j].clone());
        assert(all.skip(1) + tail.take(j + 1) =~= (all.skip(1) + tail.take(j as int)).push(
            tail[j as int],
        ));
        j += 1;
    }
    assert(tail.take(j as int) =~= tail);
    Some(Invocation { program: words[0].clone(), arguments })
}

// ---------------------------------------------------------------------------------------------
// Laws

/// The configured arguments come first and the paths last, whatever they hold.
pub proof fn paths_follow_the_configured_arguments(words: Seq<Seq<char>>, paths: Seq<Seq<char>>)
    requires
        words.len() > 0,
    ensures
        built(words, paths) is Some,
        seq![built(words, paths)->0.program] + built(words, paths)->0.arguments == words + paths,
{
    let it = built(words, paths)->0;
    assert(seq![it.program] + it.arguments =~= words + paths);
}

} // verus!
