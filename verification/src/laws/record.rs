//! What the local database records of an installed package.

use vstd::prelude::*;

use crate::install::Extraction;
use crate::laws::lists::{lemma_picks_agree, picks};
use crate::package::InstallReason;
use crate::pkginfo;
use crate::pkginfo::{field_from, field_of, info_of, value_in, values_in, values_of};
use crate::record::{
    desc_sections, files_sections, nonempty, rendered, values_from, InstallFacts, SectionView,
    Validation,
};
use crate::text;

verus! {

// ---------------------------------------------------------------------------------------------
// Lines of a `.PKGINFO`

/// Whether a line is one of a key: the key, ` = ` and a value.
pub open spec fn is_of(line: Seq<char>, key: Seq<char>) -> bool {
    text::starts_with(line, key + " = "@)
}

/// The value of a line of a key: what follows ` = `.
pub open spec fn value_after(line: Seq<char>, key: Seq<char>) -> Seq<char> {
    line.skip(key.len() as int + 3)
}

/// The values of the lines of a key, in the order of the lines.
pub open spec fn listed(lines: Seq<Seq<char>>, key: Seq<char>) -> Seq<Seq<char>> {
    picks(
        lines.len() as int,
        |i: int| is_of(lines[i], key),
        |i: int| value_after(lines[i], key),
    )
}

/// Whether line `i` is the first of a key.
pub open spec fn first_of(lines: Seq<Seq<char>>, key: Seq<char>, i: int) -> bool {
    &&& 0 <= i < lines.len()
    &&& is_of(lines[i], key)
    &&& forall|k: int| 0 <= k < i ==> !is_of(#[trigger] lines[k], key)
}

/// Whether a text can be the key of a line.
pub open spec fn is_key(key: Seq<char>) -> bool {
    key.len() > 0 && key[0] != '#' && !key.contains(' ')
}

/// A line of a key is the key, ` = ` and the value.
pub proof fn a_line_is_a_key_and_a_value(line: Seq<char>, key: Seq<char>, value: Seq<char>)
    requires
        is_key(key),
    ensures
        value_in(line, key) == Some(value) <==> line == key + " = "@ + value,
        value_in(line, key) == Some(value) <==> is_of(line, key) && value == value_after(line, key),
{
    reveal_strlit(" = ");
    let start = key + " = "@;
    if line == start + value {
        text::lemma_split_text(key, " = "@, value, ' ');
        assert(line[0] == key[0]);
        assert(line.take(start.len() as int) =~= start);
        assert(line.skip(start.len() as int) =~= value);
    }
    if is_of(line, key) && value == value_after(line, key) {
        assert(line =~= start + value);
    }
    if value_in(line, key) == Some(value) {
        text::lemma_first_text(line, " = "@);
        let i = text::first_text(line, " = "@)->0;
        assert(line.skip(i).take(3) =~= " = "@);
        assert(line.skip(i).take(3)[0] == line[i]);
        assert(line.skip(i).take(3)[1] == line[i + 1]);
        assert(line.skip(i).take(3)[2] == line[i + 2]);
        assert(line =~= start + value);
    }
}

/// A field is the value of the first line of its key, and a list the values of all of them, in
/// order.
pub proof fn a_field_is_what_its_lines_say(s: Seq<char>, key: Seq<char>)
    requires
        is_key(key),
    ensures
        values_of(s, key) == listed(text::lines(s), key),
        forall|i: int| #[trigger]
            first_of(text::lines(s), key, i) ==> field_of(s, key) == Some(
                value_after(text::lines(s)[i], key),
            ),
        field_of(s, key) is Some ==> exists|i: int| #[trigger] first_of(text::lines(s), key, i),
{
    let lines = text::lines(s);
    lemma_values_in(lines, key);
    lemma_field_from(lines, key, 0);
}

proof fn lemma_values_in(lines: Seq<Seq<char>>, key: Seq<char>)
    requires
        is_key(key),
    ensures
        values_in(lines, key) == listed(lines, key),
    decreases lines.len(),
{
    if lines.len() > 0 {
        let fewer = lines.drop_last();
        lemma_values_in(fewer, key);
        lemma_picks_agree(
            lines.len() - 1,
            |i: int| is_of(fewer[i], key),
            |i: int| is_of(lines[i], key),
            |i: int| value_after(fewer[i], key),
            |i: int| value_after(lines[i], key),
        );
        lemma_value_in(lines.last(), key);
    }
}

proof fn lemma_value_in(line: Seq<char>, key: Seq<char>)
    requires
        is_key(key),
    ensures
        value_in(line, key) == if is_of(line, key) {
            Some(value_after(line, key))
        } else {
            None
        },
{
    a_line_is_a_key_and_a_value(line, key, value_after(line, key));
    if let Some(value) = value_in(line, key) {
        a_line_is_a_key_and_a_value(line, key, value);
    }
}

proof fn lemma_field_from(lines: Seq<Seq<char>>, key: Seq<char>, i: int)
    requires
        is_key(key),
        0 <= i <= lines.len(),
        forall|k: int| 0 <= k < i ==> !is_of(#[trigger] lines[k], key),
    ensures
        forall|j: int| #[trigger]
            first_of(lines, key, j) ==> field_from(lines, key, i) == Some(
                value_after(lines[j], key),
            ),
        field_from(lines, key, i) is Some ==> exists|j: int| #[trigger] first_of(lines, key, j),
    decreases lines.len() - i,
{
    if i < lines.len() {
        lemma_value_in(lines[i], key);
        if is_of(lines[i], key) {
            assert(first_of(lines, key, i));
            assert forall|j: int| #[trigger] first_of(lines, key, j) implies j == i by {
                if j < i {
                    assert(!is_of(lines[j], key));
                }
            }
        } else {
            lemma_field_from(lines, key, i + 1);
        }
    }
}

// ---------------------------------------------------------------------------------------------
// The sections of a record

/// Where a section stands in a `desc`.
pub open spec fn standing(s: Seq<char>) -> int {
    if s == "NAME"@ {
        0
    } else if s == "VERSION"@ {
        1
    } else if s == "BASE"@ {
        2
    } else if s == "DESC"@ {
        3
    } else if s == "URL"@ {
        4
    } else if s == "ARCH"@ {
        5
    } else if s == "BUILDDATE"@ {
        6
    } else if s == "INSTALLDATE"@ {
        7
    } else if s == "PACKAGER"@ {
        8
    } else if s == "SIZE"@ {
        9
    } else if s == "REASON"@ {
        10
    } else if s == "GROUPS"@ {
        11
    } else if s == "LICENSE"@ {
        12
    } else if s == "VALIDATION"@ {
        13
    } else if s == "REPLACES"@ {
        14
    } else if s == "DEPENDS"@ {
        15
    } else if s == "OPTDEPENDS"@ {
        16
    } else if s == "CONFLICTS"@ {
        17
    } else if s == "PROVIDES"@ {
        18
    } else if s == "XDATA"@ {
        19
    } else {
        20
    }
}

/// What tells the keywords apart.
spec fn code(s: Seq<char>) -> (int, char, char) {
    (s.len() as int, s[0], s[1])
}

proof fn lemma_standings()
    ensures
        standing("NAME"@) == 0,
        standing("VERSION"@) == 1,
        standing("BASE"@) == 2,
        standing("DESC"@) == 3,
        standing("URL"@) == 4,
        standing("ARCH"@) == 5,
        standing("BUILDDATE"@) == 6,
        standing("INSTALLDATE"@) == 7,
        standing("PACKAGER"@) == 8,
        standing("SIZE"@) == 9,
        standing("REASON"@) == 10,
        standing("GROUPS"@) == 11,
        standing("LICENSE"@) == 12,
        standing("VALIDATION"@) == 13,
        standing("REPLACES"@) == 14,
        standing("DEPENDS"@) == 15,
        standing("OPTDEPENDS"@) == 16,
        standing("CONFLICTS"@) == 17,
        standing("PROVIDES"@) == 18,
        standing("XDATA"@) == 19,
{
    reveal_strlit("NAME");
    reveal_strlit("VERSION");
    reveal_strlit("BASE");
    reveal_strlit("DESC");
    reveal_strlit("URL");
    reveal_strlit("ARCH");
    reveal_strlit("BUILDDATE");
    reveal_strlit("INSTALLDATE");
    reveal_strlit("PACKAGER");
    reveal_strlit("SIZE");
    reveal_strlit("REASON");
    reveal_strlit("GROUPS");
    reveal_strlit("LICENSE");
    reveal_strlit("VALIDATION");
    reveal_strlit("REPLACES");
    reveal_strlit("DEPENDS");
    reveal_strlit("OPTDEPENDS");
    reveal_strlit("CONFLICTS");
    reveal_strlit("PROVIDES");
    reveal_strlit("XDATA");
    assert(code("NAME"@) == (4int, 'N', 'A'));
    assert(code("VERSION"@) == (7int, 'V', 'E'));
    assert(code("BASE"@) == (4int, 'B', 'A'));
    assert(code("DESC"@) == (4int, 'D', 'E'));
    assert(code("URL"@) == (3int, 'U', 'R'));
    assert(code("ARCH"@) == (4int, 'A', 'R'));
    assert(code("BUILDDATE"@) == (9int, 'B', 'U'));
    assert(code("INSTALLDATE"@) == (11int, 'I', 'N'));
    assert(code("PACKAGER"@) == (8int, 'P', 'A'));
    assert(code("SIZE"@) == (4int, 'S', 'I'));
    assert(code("REASON"@) == (6int, 'R', 'E'));
    assert(code("GROUPS"@) == (6int, 'G', 'R'));
    assert(code("LICENSE"@) == (7int, 'L', 'I'));
    assert(code("VALIDATION"@) == (10int, 'V', 'A'));
    assert(code("REPLACES"@) == (8int, 'R', 'E'));
    assert(code("DEPENDS"@) == (7int, 'D', 'E'));
    assert(code("OPTDEPENDS"@) == (10int, 'O', 'P'));
    assert(code("CONFLICTS"@) == (9int, 'C', 'O'));
    assert(code("PROVIDES"@) == (8int, 'P', 'R'));
    assert(code("XDATA"@) == (5int, 'X', 'D'));
}

proof fn lemma_keywords(sections: Seq<SectionView>)
    requires
        sections.len() == 20,
        sections[0].keyword == "NAME"@,
        sections[1].keyword == "VERSION"@,
        sections[2].keyword == "BASE"@,
        sections[3].keyword == "DESC"@,
        sections[4].keyword == "URL"@,
        sections[5].keyword == "ARCH"@,
        sections[6].keyword == "BUILDDATE"@,
        sections[7].keyword == "INSTALLDATE"@,
        sections[8].keyword == "PACKAGER"@,
        sections[9].keyword == "SIZE"@,
        sections[10].keyword == "REASON"@,
        sections[11].keyword == "GROUPS"@,
        sections[12].keyword == "LICENSE"@,
        sections[13].keyword == "VALIDATION"@,
        sections[14].keyword == "REPLACES"@,
        sections[15].keyword == "DEPENDS"@,
        sections[16].keyword == "OPTDEPENDS"@,
        sections[17].keyword == "CONFLICTS"@,
        sections[18].keyword == "PROVIDES"@,
        sections[19].keyword == "XDATA"@,
    ensures
        forall|j: int| 0 <= j < 20 ==> standing((#[trigger] sections[j]).keyword) == j,
{
    lemma_standings();
}

proof fn lemma_lookup(sections: Seq<SectionView>, keyword: Seq<char>, k: int)
    requires
        0 <= k < sections.len(),
        sections[k].keyword == keyword,
        forall|j: int| 0 <= j < sections.len() && j != k ==> (#[trigger] sections[j]).keyword
            != keyword,
    ensures
        values_from(nonempty(sections), keyword, 0) == if sections[k].values.len() > 0 {
            Some(sections[k].values)
        } else {
            None
        },
    decreases sections.len(),
{
    reveal(Seq::filter);
    let fewer = sections.drop_last();
    let last = sections.last();
    if k == sections.len() - 1 {
        lemma_absent(fewer, keyword);
        if last.values.len() > 0 {
            lemma_lookup_push(nonempty(fewer), last, keyword, 0);
        }
    } else {
        assert(fewer[k] == sections[k]);
        lemma_lookup(fewer, keyword, k);
        assert(sections[sections.len() - 1].keyword != keyword);
        if last.values.len() > 0 {
            lemma_lookup_push(nonempty(fewer), last, keyword, 0);
        }
    }
}

proof fn lemma_absent(sections: Seq<SectionView>, keyword: Seq<char>)
    requires
        forall|j: int| 0 <= j < sections.len() ==> (#[trigger] sections[j]).keyword != keyword,
    ensures
        values_from(nonempty(sections), keyword, 0) is None,
    decreases sections.len(),
{
    reveal(Seq::filter);
    if sections.len() > 0 {
        lemma_absent(sections.drop_last(), keyword);
        assert(sections[sections.len() - 1].keyword != keyword);
        lemma_lookup_push(nonempty(sections.drop_last()), sections.last(), keyword, 0);
    }
}

proof fn lemma_lookup_push(
    sections: Seq<SectionView>,
    last: SectionView,
    keyword: Seq<char>,
    i: int,
)
    requires
        0 <= i <= sections.len(),
    ensures
        values_from(sections.push(last), keyword, i) == match values_from(sections, keyword, i) {
            Some(values) => Some(values),
            None => if last.keyword == keyword {
                Some(last.values)
            } else {
                None
            },
        },
    decreases sections.len() - i,
{
    if i < sections.len() {
        assert(sections.push(last)[i] == sections[i]);
        lemma_lookup_push(sections, last, keyword, i + 1);
    } else {
        assert(values_from(sections.push(last), keyword, i + 1) is None);
    }
}

/// Values, unless there are none.
pub open spec fn unless_none(values: Seq<Seq<char>>) -> Option<Seq<Seq<char>>> {
    if values.len() > 0 {
        Some(values)
    } else {
        None
    }
}

/// Whether a record has, under a keyword, just the value of the first line of a key.
pub open spec fn has_field(
    record: Seq<SectionView>,
    keyword: Seq<char>,
    s: Seq<char>,
    key: Seq<char>,
) -> bool {
    &&& forall|i: int| #[trigger]
        first_of(text::lines(s), key, i) ==> values_from(record, keyword, 0) == Some(
            seq![value_after(text::lines(s)[i], key)],
        )
    &&& values_from(record, keyword, 0) is Some
    &&& values_from(record, keyword, 0)->0.len() == 1
}

/// Whether the section of a keyword is what a `desc` has, if anything, at its place.
proof fn lemma_desc(sections: Seq<SectionView>, k: int)
    requires
        0 <= k < sections.len(),
        sections.len() == 20,
        forall|j: int| 0 <= j < 20 ==> standing((#[trigger] sections[j]).keyword) == j,
    ensures
        values_from(nonempty(sections), sections[k].keyword, 0) == unless_none(sections[k].values),
{
    assert forall|j: int| 0 <= j < sections.len() && j != k implies (
    #[trigger] sections[j]).keyword != sections[k].keyword by {
        assert(standing(sections[j].keyword) == j);
        assert(standing(sections[k].keyword) == k);
    }
    lemma_lookup(sections, sections[k].keyword, k);
}

proof fn lemma_keys()
    ensures
        is_key("arch"@),
        is_key("builddate"@),
        is_key("conflict"@),
        is_key("depend"@),
        is_key("group"@),
        is_key("license"@),
        is_key("optdepend"@),
        is_key("packager"@),
        is_key("pkgbase"@),
        is_key("pkgdesc"@),
        is_key("pkgname"@),
        is_key("pkgver"@),
        is_key("provides"@),
        is_key("replaces"@),
        is_key("size"@),
        is_key("url"@),
{
    reveal_strlit("arch");
    reveal_strlit("builddate");
    reveal_strlit("conflict");
    reveal_strlit("depend");
    reveal_strlit("group");
    reveal_strlit("license");
    reveal_strlit("optdepend");
    reveal_strlit("packager");
    reveal_strlit("pkgbase");
    reveal_strlit("pkgdesc");
    reveal_strlit("pkgname");
    reveal_strlit("pkgver");
    reveal_strlit("provides");
    reveal_strlit("replaces");
    reveal_strlit("size");
    reveal_strlit("url");
}

/// Each list of a `.PKGINFO` is recorded under its own keyword, with the values of its lines in
/// order, and a list without any lines is not recorded.
pub proof fn each_list_is_recorded_under_its_keyword(
    written: Seq<char>,
    xdata: Seq<Seq<char>>,
    raw: Seq<char>,
    facts: InstallFacts,
)
    ensures
        ({
            let record = nonempty(desc_sections(info_of(written, xdata), raw, facts));
            let lines = text::lines(written);
            &&& values_from(record, "GROUPS"@, 0) == unless_none(listed(lines, "group"@))
            &&& values_from(record, "LICENSE"@, 0) == unless_none(listed(lines, "license"@))
            &&& values_from(record, "REPLACES"@, 0) == unless_none(listed(lines, "replaces"@))
            &&& values_from(record, "DEPENDS"@, 0) == unless_none(listed(lines, "depend"@))
            &&& values_from(record, "OPTDEPENDS"@, 0) == unless_none(listed(lines, "optdepend"@))
            &&& values_from(record, "CONFLICTS"@, 0) == unless_none(listed(lines, "conflict"@))
            &&& values_from(record, "PROVIDES"@, 0) == unless_none(listed(lines, "provides"@))
            &&& values_from(record, "XDATA"@, 0) == unless_none(xdata)
        }),
{
    let sections = desc_sections(info_of(written, xdata), raw, facts);
    lemma_keywords(sections);
    lemma_keys();
    a_field_is_what_its_lines_say(written, "group"@);
    lemma_desc(sections, 11);
    a_field_is_what_its_lines_say(written, "license"@);
    lemma_desc(sections, 12);
    a_field_is_what_its_lines_say(written, "replaces"@);
    lemma_desc(sections, 14);
    a_field_is_what_its_lines_say(written, "depend"@);
    lemma_desc(sections, 15);
    a_field_is_what_its_lines_say(written, "optdepend"@);
    lemma_desc(sections, 16);
    a_field_is_what_its_lines_say(written, "conflict"@);
    lemma_desc(sections, 17);
    a_field_is_what_its_lines_say(written, "provides"@);
    lemma_desc(sections, 18);
    lemma_desc(sections, 19);
}

/// Each field of a `.PKGINFO` is recorded under its own keyword, with the value of its first line.
pub proof fn each_field_is_recorded_under_its_keyword(
    written: Seq<char>,
    xdata: Seq<Seq<char>>,
    raw: Seq<char>,
    facts: InstallFacts,
)
    ensures
        ({
            let record = nonempty(desc_sections(info_of(written, xdata), raw, facts));
            &&& has_field(record, "NAME"@, written, "pkgname"@)
            &&& has_field(record, "VERSION"@, written, "pkgver"@)
            &&& has_field(record, "BASE"@, written, "pkgbase"@)
            &&& has_field(record, "DESC"@, written, "pkgdesc"@)
            &&& has_field(record, "ARCH"@, written, "arch"@)
            &&& has_field(record, "BUILDDATE"@, written, "builddate"@)
        }),
{
    let sections = desc_sections(info_of(written, xdata), raw, facts);
    lemma_keywords(sections);
    lemma_keys();
    a_field_is_what_its_lines_say(written, "pkgname"@);
    lemma_desc(sections, 0);
    a_field_is_what_its_lines_say(written, "pkgver"@);
    lemma_desc(sections, 1);
    a_field_is_what_its_lines_say(written, "pkgbase"@);
    lemma_desc(sections, 2);
    a_field_is_what_its_lines_say(written, "pkgdesc"@);
    lemma_desc(sections, 3);
    a_field_is_what_its_lines_say(written, "arch"@);
    lemma_desc(sections, 5);
    a_field_is_what_its_lines_say(written, "builddate"@);
    lemma_desc(sections, 6);
}

/// The home page and the packager are recorded as the file itself spells them, and as the typed
/// parse does only where the file does not say.
pub proof fn the_files_own_spelling_is_recorded(
    written: Seq<char>,
    xdata: Seq<Seq<char>>,
    raw: Seq<char>,
    facts: InstallFacts,
)
    ensures
        ({
            let record = nonempty(desc_sections(info_of(written, xdata), raw, facts));
            &&& has_field(record, "URL"@, raw, "url"@)
            &&& has_field(record, "PACKAGER"@, raw, "packager"@)
            &&& (forall|i: int| !#[trigger] first_of(text::lines(raw), "url"@, i)) ==> has_field(
                record,
                "URL"@,
                written,
                "url"@,
            )
            &&& (forall|i: int| !#[trigger] first_of(text::lines(raw), "packager"@, i))
                ==> has_field(record, "PACKAGER"@, written, "packager"@)
        }),
{
    let sections = desc_sections(info_of(written, xdata), raw, facts);
    lemma_keywords(sections);
    lemma_keys();
    a_field_is_what_its_lines_say(raw, "url"@);
    a_field_is_what_its_lines_say(raw, "packager"@);
    a_field_is_what_its_lines_say(written, "url"@);
    a_field_is_what_its_lines_say(written, "packager"@);
    lemma_desc(sections, 4);
    lemma_desc(sections, 8);
}

/// The installed size is recorded unless it is 0.
pub proof fn the_size_is_recorded_unless_it_is_nothing(
    written: Seq<char>,
    xdata: Seq<Seq<char>>,
    raw: Seq<char>,
    facts: InstallFacts,
    i: int,
)
    requires
        first_of(text::lines(written), "size"@, i),
    ensures
        ({
            let record = nonempty(desc_sections(info_of(written, xdata), raw, facts));
            let size = value_after(text::lines(written)[i], "size"@);
            values_from(record, "SIZE"@, 0) == if size == "0"@ {
                None
            } else {
                Some(seq![size])
            }
        }),
{
    let sections = desc_sections(info_of(written, xdata), raw, facts);
    lemma_keywords(sections);
    lemma_keys();
    a_field_is_what_its_lines_say(written, "size"@);
    lemma_desc(sections, 9);
}

/// What the transaction knows is recorded: when the package was installed, that it is a dependency
/// where it is one, and how each check of its file is spelled, in order.
pub proof fn what_the_transaction_knows_is_recorded(
    written: Seq<char>,
    xdata: Seq<Seq<char>>,
    raw: Seq<char>,
    facts: InstallFacts,
)
    ensures
        ({
            let record = nonempty(desc_sections(info_of(written, xdata), raw, facts));
            let checks = facts.validation@;
            &&& values_from(record, "INSTALLDATE"@, 0) == Some(
                seq![text::dec_int(facts.install_date as int)],
            )
            &&& facts.reason == InstallReason::Explicit <==> values_from(record, "REASON"@, 0)
                is None
            &&& facts.reason == InstallReason::Depend <==> values_from(record, "REASON"@, 0)
                == Some(seq!["1"@])
            &&& values_from(record, "VALIDATION"@, 0) == unless_none(
                Seq::new(
                    checks.len(),
                    |i: int|
                        match checks[i] {
                            Validation::Unchecked => "none"@,
                            Validation::Md5 => "md5"@,
                            Validation::Sha256 => "sha256"@,
                            Validation::Pgp => "pgp"@,
                        },
                ),
            )
        }),
{
    let sections = desc_sections(info_of(written, xdata), raw, facts);
    lemma_keywords(sections);
    lemma_desc(sections, 7);
    lemma_desc(sections, 10);
    lemma_desc(sections, 13);
    let checks = facts.validation@;
    let f = |i: int|
        match checks[i] {
            Validation::Unchecked => "none"@,
            Validation::Md5 => "md5"@,
            Validation::Sha256 => "sha256"@,
            Validation::Pgp => "pgp"@,
        };
    assert(crate::record::spellings(checks) =~= Seq::new(checks.len(), f));
}

/// The sections of a `desc` stand in one order, whatever is missing.
pub proof fn sections_stand_in_one_order(
    written: Seq<char>,
    xdata: Seq<Seq<char>>,
    raw: Seq<char>,
    facts: InstallFacts,
    i: int,
    j: int,
)
    requires
        0 <= i < j < nonempty(desc_sections(info_of(written, xdata), raw, facts)).len(),
    ensures
        ({
            let record = nonempty(desc_sections(info_of(written, xdata), raw, facts));
            0 <= standing(record[i].keyword) < standing(record[j].keyword) < 20
        }),
{
    let sections = desc_sections(info_of(written, xdata), raw, facts);
    lemma_keywords(sections);
    lemma_order(sections, i, j);
}

proof fn lemma_order(sections: Seq<SectionView>, i: int, j: int)
    requires
        0 <= i < j < nonempty(sections).len(),
        sections.len() <= 20,
        forall|k: int| 0 <= k < sections.len() ==> standing((#[trigger] sections[k]).keyword) == k,
    ensures
        0 <= standing(nonempty(sections)[i].keyword) < standing(nonempty(sections)[j].keyword)
            < sections.len(),
    decreases sections.len(),
{
    reveal(Seq::filter);
    if sections.len() > 0 {
        let fewer = sections.drop_last();
        assert(standing(sections[sections.len() - 1].keyword) == sections.len() - 1);
        if j < nonempty(fewer).len() {
            lemma_order(fewer, i, j);
        } else {
            lemma_stands(fewer, i);
        }
    }
}

proof fn lemma_stands(sections: Seq<SectionView>, i: int)
    requires
        0 <= i < nonempty(sections).len(),
        forall|k: int| 0 <= k < sections.len() ==> standing((#[trigger] sections[k]).keyword) == k,
    ensures
        0 <= standing(nonempty(sections)[i].keyword) < sections.len(),
    decreases sections.len(),
{
    reveal(Seq::filter);
    if sections.len() > 0 {
        let fewer = sections.drop_last();
        assert(standing(sections[sections.len() - 1].keyword) == sections.len() - 1);
        if i < nonempty(fewer).len() {
            lemma_stands(fewer, i);
        }
    }
}

/// What was laid down is recorded in order, and each backup file with its hash after a tab.
pub proof fn what_was_laid_down_is_recorded(extraction: Extraction)
    ensures
        ({
            let record = nonempty(files_sections(extraction));
            let owned = extraction.owned@;
            let hashes = extraction.backup_hashes@;
            &&& values_from(record, "FILES"@, 0) == unless_none(
                Seq::new(owned.len(), |i: int| owned[i]@),
            )
            &&& values_from(record, "BACKUP"@, 0) == unless_none(
                Seq::new(hashes.len(), |i: int| hashes[i].path@.push('\t') + hashes[i].hash@),
            )
            &&& record.len() == 2 ==> record[0].keyword == "FILES"@ && record[1].keyword
                == "BACKUP"@
            &&& record.len() <= 2
        }),
{
    reveal_strlit("FILES");
    reveal_strlit("BACKUP");
    reveal_strlit("\t");
    reveal_with_fuel(Seq::filter, 3);
    let sections = files_sections(extraction);
    let owned = extraction.owned@;
    let hashes = extraction.backup_hashes@;
    assert("FILES"@.len() != "BACKUP"@.len());
    lemma_lookup(sections, "FILES"@, 0);
    lemma_lookup(sections, "BACKUP"@, 1);
    assert(sections[0].values =~= Seq::new(owned.len(), |i: int| owned[i]@));
    let lines = Seq::new(hashes.len(), |i: int| hashes[i].path@.push('\t') + hashes[i].hash@);
    assert forall|i: int| 0 <= i < hashes.len() implies sections[1].values[i] =~= lines[i] by {
        assert(hashes[i].path@ + "\t"@ =~= hashes[i].path@.push('\t'));
    }
    assert(sections[1].values =~= lines);
    let one = sections.drop_last();
    assert(one.drop_last() =~= Seq::<SectionView>::empty());
    assert(one.last() == sections[0]);
    assert(sections.last() == sections[1]);
    assert(nonempty(one).len() <= 1);
    assert(nonempty(one).len() == 1 ==> nonempty(one)[0] == sections[0]);
}

/// A section is written as its keyword between percent signs, each value on a line of its own, and
/// an empty line.
pub proof fn a_section_is_written_line_by_line(
    sections: Seq<SectionView>,
    keyword: Seq<char>,
    values: Seq<Seq<char>>,
)
    ensures
        rendered(Seq::empty()) == Seq::<char>::empty(),
        rendered(sections.push(SectionView { keyword, values })) == rendered(sections) + "%"@
            + keyword + "%\n"@ + text::unlines(values) + "\n"@,
{
    reveal_strlit("%");
    reveal_strlit("%\n");
    reveal_strlit("\n");
    let more = sections.push(SectionView { keyword, values });
    assert(more.drop_last() =~= sections);
    assert(rendered(more) =~= rendered(sections) + "%"@ + keyword + "%\n"@ + text::unlines(values)
        + "\n"@);
}

/// A line that names makepkg's default packager is handed on with an address, and every other line
/// as it is.
pub proof fn only_the_unknown_packager_gets_an_address(s: Seq<char>)
    ensures
        ({
            let lines = text::lines(s);
            let unknown = "packager = Unknown Packager"@;
            let addressed = "packager = Unknown Packager <unknown@example.invalid>"@;
            pkginfo::substituted(s) == if lines.contains(unknown) {
                text::unlines(
                    Seq::new(
                        lines.len(),
                        |i: int|
                            if lines[i] == unknown {
                                addressed
                            } else {
                                lines[i]
                            },
                    ),
                )
            } else {
                s
            }
        }),
{
    reveal_strlit("packager = Unknown Packager");
    reveal_strlit("packager = Unknown Packager <unknown@example.invalid>");
    reveal_strlit("packager = ");
    reveal_strlit("Unknown Packager");
    let lines = text::lines(s);
    let unknown = "packager = Unknown Packager"@;
    let start = "packager = "@;
    assert(unknown =~= start + "Unknown Packager"@);
    assert forall|i: int| 0 <= i < lines.len() implies pkginfo::is_default_packager(
        #[trigger] lines[i],
    ) == (lines[i] == unknown) by {
        let line = lines[i];
        if line == unknown {
            assert(line.take(11) =~= start);
            assert(line.skip(11) =~= "Unknown Packager"@);
        }
        if pkginfo::is_default_packager(line) {
            assert(line =~= line.take(11) + line.skip(11));
        }
    }
    if lines.contains(unknown) {
        let addressed = "packager = Unknown Packager <unknown@example.invalid>"@;
        let i = choose|i: int| 0 <= i < lines.len() && lines[i] == unknown;
        assert(pkginfo::is_default_packager(text::lines(s)[i]));
        assert(Seq::new(
            text::lines(s).len(),
            |i: int| pkginfo::stand_in(text::lines(s)[i]),
        ) =~= Seq::new(
            lines.len(),
            |i: int|
                if lines[i] == unknown {
                    addressed
                } else {
                    lines[i]
                },
        ));
    } else if pkginfo::has_default_packager(s) {
        let i = choose|i: int|
            0 <= i < text::lines(s).len() && pkginfo::is_default_packager(
                #[trigger] text::lines(s)[i],
            );
        assert(lines[i] == unknown);
    }
}

} // verus!
