//! What the name of a database entry says.

use vstd::prelude::*;

use crate::package::{entry_of, is_full_version, is_name, EntryNameView};
use crate::text;

verus! {

/// Whether a text holds exactly one dash.
pub open spec fn has_one_dash(s: Seq<char>) -> bool {
    exists|k: int|
        0 <= k < s.len() && #[trigger] s[k] == '-' && forall|j: int|
            0 <= j < s.len() && j != k ==> #[trigger] s[j] != '-'
}

proof fn lemma_last_dash(s: Seq<char>)
    ensures
        match text::last_of(s, '-', '-') {
            Some(i) => 0 <= i < s.len() && s[i] == '-' && forall|k: int|
                i < k < s.len() ==> #[trigger] s[k] != '-',
            None => forall|k: int| 0 <= k < s.len() ==> #[trigger] s[k] != '-',
        },
    decreases s.len(),
{
    if s.len() > 0 && s.last() != '-' {
        lemma_last_dash(s.drop_last());
        assert forall|k: int| 0 <= k < s.len() - 1 implies #[trigger] s[k]
            == s.drop_last()[k] by {}
    }
}

/// The name of an entry is a package's name, a dash and a full version, which holds the last dash
/// but none before it. Nothing else is the name of an entry.
pub proof fn an_entry_is_a_name_and_a_version(s: Seq<char>, entry: EntryNameView)
    ensures
        entry_of(s) == Some(entry) <==> s == entry.name.push('-') + entry.version && is_name(
            entry.name,
        ) && is_full_version(entry.version) && has_one_dash(entry.version),
{
    lemma_last_dash(s);
    if entry_of(s) == Some(entry) {
        let j = text::last_of(s, '-', '-')->0;
        let head = s.take(j);
        lemma_last_dash(head);
        let i = text::last_of(head, '-', '-')->0;
        assert(head[i] == s[i]);
        assert(s =~= entry.name.push('-') + entry.version);
        let k = j - i - 1;
        assert(entry.version[k] == s[j]);
        assert forall|m: int| 0 <= m < entry.version.len() && m != k implies #[trigger]
            entry.version[m] != '-' by {
            assert(entry.version[m] == s[i + 1 + m]);
            if m < k {
                assert(head[i + 1 + m] == s[i + 1 + m]);
            }
        }
    }
    if s == entry.name.push('-') + entry.version && has_one_dash(entry.version) {
        let n = entry.name.len() as int;
        let k = choose|k: int|
            0 <= k < entry.version.len() && #[trigger] entry.version[k] == '-' && forall|j: int|
                0 <= j < entry.version.len() && j != k ==> #[trigger] entry.version[j] != '-';
        let j = n + 1 + k;
        assert(s[j] == '-');
        assert forall|m: int| j < m < s.len() implies #[trigger] s[m] != '-' by {
            assert(s[m] == entry.version[m - n - 1]);
        }
        let found = text::last_of(s, '-', '-');
        assert(found == Some(j));
        let head = s.take(j);
        lemma_last_dash(head);
        assert(head[n] == '-');
        assert forall|m: int| n < m < head.len() implies #[trigger] head[m] != '-' by {
            assert(head[m] == entry.version[m - n - 1]);
        }
        assert(text::last_of(head, '-', '-') == Some(n));
        assert(s.take(n) =~= entry.name);
        assert(s.skip(n + 1) =~= entry.version);
    }
}

} // verus!
