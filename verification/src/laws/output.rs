//! What is kept of a command's output, and how files are told apart.

use vstd::prelude::*;

use crate::exec::{capped, joined, StatusView};
use crate::hash::{agreement, outgrown};

verus! {

/// What a command wrote is kept in the order it arrived, from its start, and up to a mebibyte.
pub proof fn output_is_kept_from_its_start(chunks: Seq<Vec<u8>>, chunk: Vec<u8>, bytes: Seq<u8>)
    ensures
        joined(Seq::empty()) == Seq::<u8>::empty(),
        joined(chunks.push(chunk)) == joined(chunks) + chunk@,
        capped(bytes).is_prefix_of(bytes),
        capped(bytes).len() == if bytes.len() <= 1_048_576 {
            bytes.len()
        } else {
            1_048_576
        },
{
    assert(chunks.push(chunk).drop_last() =~= chunks);
    assert(capped(bytes) =~= bytes.subrange(0, capped(bytes).len() as int));
}

/// A command is said to have succeeded where it exited with 0, and nowhere else.
pub proof fn only_a_zero_is_a_success(status: StatusView)
    ensures
        status.words() == "succeeded"@ <==> status == StatusView::Exited(0),
{
    reveal_strlit("succeeded");
    reveal_strlit("exited with status ");
    reveal_strlit("was killed by signal ");
    reveal_strlit("could not be started: ");
    assert("succeeded"@[0] == 's');
    match status {
        StatusView::Exited(code) => {
            if code != 0 {
                assert(status.words()[0] == 'e');
            }
        },
        StatusView::Signalled(_) => {
            assert(status.words()[0] == 'w');
        },
        StatusView::NotStarted(_) => {
            assert(status.words()[0] == 'c');
        },
    }
}

/// Two files agree up to the first byte at which they differ, or to the end of the shorter.
pub proof fn files_agree_up_to_their_first_difference(left: Seq<u8>, right: Seq<u8>, i: int)
    requires
        0 <= i <= left.len(),
        i <= right.len(),
    ensures
        i <= agreement(left, right, i) <= left.len(),
        agreement(left, right, i) <= right.len(),
        forall|k: int| i <= k < agreement(left, right, i) ==> left[k] == right[k],
        agreement(left, right, i) < left.len() && agreement(left, right, i) < right.len()
            ==> left[agreement(left, right, i)] != right[agreement(left, right, i)],
    decreases left.len() - i,
{
    if i < left.len() && i < right.len() && left[i] == right[i] {
        files_agree_up_to_their_first_difference(left, right, i + 1);
    }
}

/// Two files outgrow a limit where more than that many bytes of theirs were the same before the
/// block in which they differ, and where they are the same and larger than it.
pub proof fn a_limit_is_outgrown_block_by_block(left: Seq<u8>, right: Seq<u8>, max: int, at: int)
    requires
        0 <= at < left.len(),
        at < right.len(),
        left[at] != right[at],
        forall|k: int| 0 <= k < at ==> left[k] == right[k],
    ensures
        outgrown(left, right, max) <==> (at / crate::hash::COMPARE_BLOCK_BYTES as int)
            * crate::hash::COMPARE_BLOCK_BYTES > max,
        outgrown(left, left, max) <==> left.len() > max,
{
    files_agree_up_to_their_first_difference(left, right, 0);
    let n = agreement(left, right, 0);
    if n < at {
        assert(left[n] == right[n]);
    }
    if at < n {
        assert(left[at] == right[at]);
    }
    assert(n == at);
    let block = crate::hash::COMPARE_BLOCK_BYTES as int;
    assert(at - at % block == (at / block) * block) by (nonlinear_arith)
        requires
            block > 0,
    ;
}

} // verus!
