//! The local database entry of an installed package.
//!
//! The `desc` a package gets is almost entirely a transcription of its `.PKGINFO`, with fields the
//! transaction supplies rather than the package: `%INSTALLDATE%`, `%REASON%` and `%VALIDATION%`.
//! Sections are in one fixed order, and an empty section is not written.

use vstd::prelude::*;

use crate::install::Extraction;
use crate::package::InstallReason;
use crate::pkginfo;
use crate::pkginfo::{PackageInfo, PackageInfoView};
use crate::text;

verus! {

broadcast use crate::text::group_lists;

/// How a package file was verified.
#[derive(Clone, Copy, Debug, Eq, PartialEq, Structural)]
pub enum Validation {
    /// Not at all.
    Unchecked,
    /// Against an MD5 digest.
    Md5,
    /// Against a SHA-256 digest.
    Sha256,
    /// By an OpenPGP signature.
    Pgp,
}

impl Validation {
    /// How the database spells it.
    pub open spec fn spelling(self) -> Seq<char> {
        match self {
            Validation::Unchecked => "none"@,
            Validation::Md5 => "md5"@,
            Validation::Sha256 => "sha256"@,
            Validation::Pgp => "pgp"@,
        }
    }

    /// How the database spells it.
    pub fn as_str(self) -> (r: &'static str)
        ensures
            r@ == self.spelling(),
    {
        match self {
            Validation::Unchecked => "none",
            Validation::Md5 => "md5",
            Validation::Sha256 => "sha256",
            Validation::Pgp => "pgp",
        }
    }
}

/// What the transaction knows that the package does not.
#[derive(Clone, Debug)]
pub struct InstallFacts {
    /// Seconds since the epoch, recorded as `%INSTALLDATE%`.
    pub install_date: i64,
    /// Whether the user asked for this package or a dependency pulled it in.
    pub reason: InstallReason,
    /// How the package file was verified. Empty means the section is omitted.
    pub validation: Vec<Validation>,
}

/// One section of a record.
#[derive(Clone, Debug, Eq, PartialEq)]
pub struct Section {
    keyword: String,
    values: Vec<String>,
}

/// What a [`Section`] holds.
pub struct SectionView {
    /// Its keyword.
    pub keyword: Seq<char>,
    /// Its values.
    pub values: Seq<Seq<char>>,
}

impl View for Section {
    type V = SectionView;

    closed spec fn view(&self) -> SectionView {
        SectionView { keyword: self.keyword@, values: text::texts(self.values@) }
    }
}

impl Section {
    /// Its keyword.
    pub fn keyword(&self) -> (r: &str)
        ensures
            r@ == self@.keyword,
    {
        self.keyword.as_str()
    }

    /// Its values.
    pub fn values(&self) -> (r: &Vec<String>)
        ensures
            text::texts(r@) == self@.values,
    {
        &self.values
    }
}

/// The views of a list of sections.
pub open spec fn section_views(list: Seq<Section>) -> Seq<SectionView> {
    Seq::new(list.len(), |i: int| list[i]@)
}

/// One file of a local database entry.
#[derive(Clone, Debug)]
pub struct Record {
    sections: Vec<Section>,
}

impl View for Record {
    type V = Seq<SectionView>;

    closed spec fn view(&self) -> Seq<SectionView> {
        section_views(self.sections@)
    }
}

/// The sections that hold anything, in order.
pub open spec fn nonempty(sections: Seq<SectionView>) -> Seq<SectionView> {
    sections.filter(|section: SectionView| section.values.len() > 0)
}

/// The values of the first section of a keyword, from `i` on.
pub open spec fn values_from(sections: Seq<SectionView>, keyword: Seq<char>, i: int) -> Option<
    Seq<Seq<char>>,
>
    decreases sections.len() - i,
{
    if i >= sections.len() {
        None
    } else if sections[i].keyword == keyword {
        Some(sections[i].values)
    } else {
        values_from(sections, keyword, i + 1)
    }
}

impl Record {
    /// A record of the sections that hold anything.
    fn of(all: Vec<Section>) -> (r: Self)
        ensures
            r@ == nonempty(section_views(all@)),
    {
        let ghost views = section_views(all@);
        let ghost keep = |section: SectionView| section.values.len() > 0;
        let ghost whole = all@;
        let mut sections: Vec<Section> = Vec::new();
        let ghost mut i: int = 0;
        proof {
            reveal(Seq::filter);
            assert(section_views(sections@) =~= views.take(0).filter(keep));
        }
        for section in it: all
            invariant
                it.seq() == whole,
                it.index() == i,
                views == section_views(whole),
                keep == (|section: SectionView| section.values.len() > 0),
                section_views(sections@) == views.take(i).filter(keep),
        {
            let ghost before = section_views(sections@);
            proof {
                crate::order::lemma_filter_step(views, i, keep);
                assert(views[i] == section@);
            }
            if section.values.len() > 0 {
                sections.push(section);
                assert(section_views(sections@) =~= before.push(section@));
            }
            proof {
                i = i + 1;
            }
        }
        assert(views.take(views.len() as int) =~= views);
        Record { sections }
    }

    /// The sections, in order.
    pub fn sections(&self) -> (r: &Vec<Section>)
        ensures
            section_views(r@) == self@,
    {
        &self.sections
    }

    /// The values of a section.
    pub fn get(&self, keyword: &str) -> (r: Option<&Vec<String>>)
        ensures
            match r {
                Some(values) => values_from(self@, keyword@, 0) == Some(text::texts(values@)),
                None => values_from(self@, keyword@, 0) is None,
            },
    {
        let mut i: usize = 0;
        while i < self.sections.len()
            invariant
                i <= self.sections.len(),
                values_from(self@, keyword@, 0) == values_from(self@, keyword@, i as int),
            decreases self.sections.len() - i,
        {
            assert(self@[i as int] == self.sections@[i as int]@);
            if text::same(self.sections[i].keyword.as_str(), keyword) {
                return Some(&self.sections[i].values);
            }
            i += 1;
        }
        None
    }

    /// The record as a file's text: each section is its keyword between percent signs, a value per
    /// line, and an empty line.
    pub fn render(&self) -> (r: String)
        ensures
            r@ == rendered(self@),
    {
        let mut out = String::new();
        let ghost views = self@;
        let mut i: usize = 0;
        assert(out@ =~= rendered(views.take(0)));
        while i < self.sections.len()
            invariant
                i <= self.sections.len(),
                views == section_views(self.sections@),
                out@ == rendered(views.take(i as int)),
            decreases self.sections.len() - i,
        {
            let ghost before = out@;
            let section = &self.sections[i];
            out.push('%');
            out.push_str(section.keyword.as_str());
            out.push_str("%\n");
            let ghost head = before + header(section@.keyword).push('\n');
            proof {
                reveal_strlit("%\n");
                assert(out@ =~= head);
                assert(head + text::unlines(section@.values.take(0)) =~= head);
            }
            let mut j: usize = 0;
            while j < section.values.len()
                invariant
                    j <= section.values.len(),
                    section@.values == text::texts(section.values@),
                    out@ == head + text::unlines(section@.values.take(j as int)),
                decreases section.values.len() - j,
            {
                let ghost so_far = out@;
                out.push_str(section.values[j].as_str());
                out.push('\n');
                proof {
                    let values = section@.values;
                    let value = values[j as int];
                    text::lemma_unlines_push(values.take(j as int), value);
                    assert(values.take(j + 1) =~= values.take(j as int).push(value));
                    assert(out@ =~= so_far + value.push('\n'));
                    assert(out@ =~= head + text::unlines(values.take(j + 1)));
                }
                j += 1;
            }
            out.push('\n');
            proof {
                assert(section@.values.take(j as int) =~= section@.values);
                let more = views.take(i + 1);
                assert(more.drop_last() =~= views.take(i as int));
                assert(more.last() == section@);
                assert(out@ =~= before + section_text(section@));
            }
            i += 1;
        }
        assert(views.take(i as int) =~= views);
        out
    }
}

/// The line that starts a section.
pub open spec fn header(keyword: Seq<char>) -> Seq<char> {
    seq!['%'] + keyword + seq!['%']
}

/// A section's text.
pub open spec fn section_text(section: SectionView) -> Seq<char> {
    header(section.keyword).push('\n') + text::unlines(section.values) + seq!['\n']
}

/// The text of the first sections.
pub open spec fn rendered(sections: Seq<SectionView>) -> Seq<char>
    decreases sections.len(),
{
    if sections.len() == 0 {
        Seq::empty()
    } else {
        rendered(sections.drop_last()) + section_text(sections.last())
    }
}

// ---------------------------------------------------------------------------------------------
// Reading a record back

/// The keyword of a line that starts a section.
pub open spec fn keyword_of(line: Seq<char>) -> Option<Seq<char>> {
    if line.len() >= 2 && line[0] == '%' && line.last() == '%' {
        Some(line.subrange(1, line.len() - 1))
    } else {
        None
    }
}

/// What the lines of a file have said so far: the sections that ended, and the one that did not.
pub struct Reading {
    /// The sections that ended.
    pub done: Seq<SectionView>,
    /// The section that did not.
    pub open: Option<SectionView>,
}

/// What one more line says. `None` refuses it: outside of a section only a keyword may stand.
pub open spec fn after_line(so_far: Reading, line: Seq<char>) -> Option<Reading> {
    match so_far.open {
        Some(section) => if line.len() == 0 {
            Some(Reading { done: so_far.done.push(section), open: None })
        } else {
            Some(
                Reading {
                    open: Some(SectionView { values: section.values.push(line), ..section }),
                    ..so_far
                },
            )
        },
        None => if line.len() == 0 {
            Some(so_far)
        } else {
            match keyword_of(line) {
                Some(keyword) => Some(
                    Reading { open: Some(SectionView { keyword, values: Seq::empty() }), ..so_far },
                ),
                None => None,
            }
        },
    }
}

/// What the first lines say.
pub open spec fn after_lines(lines: Seq<Seq<char>>) -> Option<Reading>
    decreases lines.len(),
{
    if lines.len() == 0 {
        Some(Reading { done: Seq::empty(), open: None })
    } else {
        match after_lines(lines.drop_last()) {
            Some(so_far) => after_line(so_far, lines.last()),
            None => None,
        }
    }
}

/// The sections of a file.
pub open spec fn sections_of(s: Seq<char>) -> Option<Seq<SectionView>> {
    match after_lines(text::lines(s)) {
        Some(reading) => match reading.open {
            Some(section) => Some(reading.done.push(section)),
            None => Some(reading.done),
        },
        None => None,
    }
}

impl Record {
    /// Reads a record back. `None` where a line stands outside of every section.
    pub fn parse(contents: &str) -> (r: Option<Self>)
        ensures
            match r {
                Some(record) => sections_of(contents@) == Some(record@),
                None => sections_of(contents@) is None,
            },
    {
        let all = text::chars(contents);
        let lines = text::split_lines(all.as_slice());
        let ghost views = text::pieces(lines@);
        let mut done: Vec<Section> = Vec::new();
        let mut open: Option<Section> = None;
        let mut i: usize = 0;
        proof {
            assert(views.take(0) =~= Seq::<Seq<char>>::empty());
            assert(section_views(done@) =~= Seq::<SectionView>::empty());
        }
        while i < lines.len()
            invariant
                i <= lines.len(),
                views == text::pieces(lines@),
                views == text::lines(contents@),
                after_lines(views.take(i as int)) == Some(reading_of(done, open)),
            decreases lines.len() - i,
        {
            let line = lines[i];
            let ghost before = section_views(done@);
            proof {
                let so_far = views.take(i + 1);
                assert(so_far.drop_last() =~= views.take(i as int));
                assert(so_far.last() == line@);
            }
            match open {
                Some(mut section) => {
                    if line.len() == 0 {
                        done.push(section);
                        open = None;
                        assert(section_views(done@) =~= before.push(section@));
                    } else {
                        section.values.push(text::text(line));
                        open = Some(section);
                    }
                },
                None => {
                    if line.len() > 0 {
                        if line.len() >= 2 && line[0] == '%' && line[line.len() - 1] == '%' {
                            let keyword = vstd::slice::slice_subrange(line, 1, line.len() - 1);
                            let section = Section {
                                keyword: text::text(keyword),
                                values: Vec::new(),
                            };
                            assert(section@.values =~= Seq::<Seq<char>>::empty());
                            open = Some(section);
                        } else {
                            proof {
                                lemma_refused(views, i + 1);
                            }
                            return None;
                        }
                    } else {
                        open = None;
                    }
                },
            }
            i += 1;
        }
        proof {
            assert(views.take(i as int) =~= views);
        }
        let ghost before = section_views(done@);
        if let Some(section) = open {
            done.push(section);
            assert(section_views(done@) =~= before.push(section@));
        }
        Some(Record { sections: done })
    }
}

/// What was read so far.
spec fn reading_of(done: Vec<Section>, open: Option<Section>) -> Reading {
    Reading {
        done: section_views(done@),
        open: match open {
            Some(section) => Some(section@),
            None => None,
        },
    }
}

/// Nothing after a refused line matters.
proof fn lemma_refused(lines: Seq<Seq<char>>, n: int)
    requires
        0 <= n <= lines.len(),
        after_lines(lines.take(n)) is None,
    ensures
        after_lines(lines) is None,
    decreases lines.len() - n,
{
    if n == lines.len() {
        assert(lines.take(n) =~= lines);
    } else {
        assert(lines.take(n + 1).drop_last() =~= lines.take(n));
        lemma_refused(lines, n + 1);
    }
}

// ---------------------------------------------------------------------------------------------
// desc

/// The spellings of a list of validations.
pub open spec fn spellings(validation: Seq<Validation>) -> Seq<Seq<char>> {
    Seq::new(validation.len(), |i: int| validation[i].spelling())
}

/// A field of the raw text, or what the parse makes of it.
pub open spec fn verbatim(raw: Seq<char>, key: Seq<char>, parsed: Seq<char>) -> Seq<char> {
    match pkginfo::field_of(raw, key) {
        Some(value) => value,
        None => parsed,
    }
}

/// A section.
pub open spec fn section(keyword: Seq<char>, values: Seq<Seq<char>>) -> SectionView {
    SectionView { keyword, values }
}

/// A value, unless it is withheld.
pub open spec fn unless(withheld: bool, value: Seq<char>) -> Seq<Seq<char>> {
    if withheld {
        Seq::empty()
    } else {
        seq![value]
    }
}

/// Every section a `desc` can have, in order, with what it holds.
pub open spec fn desc_sections(
    info: PackageInfoView,
    raw: Seq<char>,
    facts: InstallFacts,
) -> Seq<SectionView> {
    seq![
        section("NAME"@, seq![info.pkgname]),
        section("VERSION"@, seq![info.pkgver]),
        section("BASE"@, seq![info.pkgbase]),
        section("DESC"@, seq![info.pkgdesc]),
        section("URL"@, seq![verbatim(raw, "url"@, info.url)]),
        section("ARCH"@, seq![info.arch]),
        section("BUILDDATE"@, seq![info.builddate]),
        section("INSTALLDATE"@, seq![text::dec_int(facts.install_date as int)]),
        section("PACKAGER"@, seq![verbatim(raw, "packager"@, info.packager)]),
        section("SIZE"@, unless(info.size == "0"@, info.size)),
        section("REASON"@, unless(facts.reason == InstallReason::Explicit, "1"@)),
        section("GROUPS"@, info.group),
        section("LICENSE"@, info.license),
        section("VALIDATION"@, spellings(facts.validation@)),
        section("REPLACES"@, info.replaces),
        section("DEPENDS"@, info.depend),
        section("OPTDEPENDS"@, info.optdepend),
        section("CONFLICTS"@, info.conflict),
        section("PROVIDES"@, info.provides),
        section("XDATA"@, info.xdata),
    ]
}

/// Appends a section.
fn put(all: &mut Vec<Section>, keyword: &str, values: Vec<String>)
    ensures
        section_views(final(all)@) == section_views(old(all)@).push(
            section(keyword@, text::texts(values@)),
        ),
{
    let ghost before = section_views(all@);
    let new = Section { keyword: keyword.to_owned(), values };
    all.push(new);
    assert(section_views(all@) =~= before.push(new@));
}

/// Appends a section of one value.
fn put_one(all: &mut Vec<Section>, keyword: &str, value: String)
    ensures
        section_views(final(all)@) == section_views(old(all)@).push(
            section(keyword@, seq![value@]),
        ),
{
    let mut values: Vec<String> = Vec::new();
    values.push(value);
    assert(text::texts(values@) =~= seq![value@]);
    put(all, keyword, values);
}

/// Appends a section of one value, unless it is withheld.
fn put_unless(all: &mut Vec<Section>, keyword: &str, withheld: bool, value: String)
    ensures
        section_views(final(all)@) == section_views(old(all)@).push(
            section(keyword@, unless(withheld, value@)),
        ),
{
    let mut values: Vec<String> = Vec::new();
    if !withheld {
        values.push(value);
    }
    assert(text::texts(values@) =~= unless(withheld, value@));
    put(all, keyword, values);
}

/// A field of the raw text, or what the parse makes of it.
fn verbatim_or(raw: &str, key: &str, parsed: &String) -> (r: String)
    ensures
        r@ == verbatim(raw@, key@, parsed@),
{
    match pkginfo::raw_field(raw, key) {
        Some(value) => value,
        None => parsed.clone(),
    }
}

/// The spellings of a list of validations.
fn spell(validation: &Vec<Validation>) -> (r: Vec<String>)
    ensures
        text::texts(r@) == spellings(validation@),
{
    let mut out: Vec<String> = Vec::new();
    let ghost all = spellings(validation@);
    let mut i: usize = 0;
    assert(text::texts(out@) =~= all.take(0));
    while i < validation.len()
        invariant
            i <= validation.len(),
            all == spellings(validation@),
            text::texts(out@) == all.take(i as int),
        decreases validation.len() - i,
    {
        out.push(validation[i].as_str().to_owned());
        assert(all.take(i + 1) =~= all.take(i as int).push(all[i as int]));
        i += 1;
    }
    assert(all.take(i as int) =~= all);
    out
}

/// Builds the `desc` record for a newly installed package.
///
/// `%SIZE%` is the package's installed size, and is omitted where it is 0. `%URL%` and
/// `%PACKAGER%` are copied from the raw text: the typed parse normalises the one, and a substitute
/// may stand in for the other. `%REASON%` is omitted for an explicit install.
pub fn desc(info: &PackageInfo, raw: &str, facts: &InstallFacts) -> (r: Record)
    ensures
        r@ == nonempty(desc_sections(info@, raw@, *facts)),
{
    let mut all: Vec<Section> = Vec::new();
    put_one(&mut all, "NAME", info.pkgname.clone());
    put_one(&mut all, "VERSION", info.pkgver.clone());
    put_one(&mut all, "BASE", info.pkgbase.clone());
    put_one(&mut all, "DESC", info.pkgdesc.clone());
    put_one(&mut all, "URL", verbatim_or(raw, "url", &info.url));
    put_one(&mut all, "ARCH", info.arch.clone());
    put_one(&mut all, "BUILDDATE", info.builddate.clone());
    put_one(&mut all, "INSTALLDATE", text::decimal_signed(facts.install_date));
    put_one(&mut all, "PACKAGER", verbatim_or(raw, "packager", &info.packager));
    put_unless(&mut all, "SIZE", text::same(info.size.as_str(), "0"), info.size.clone());
    put_unless(&mut all, "REASON", facts.reason == InstallReason::Explicit, "1".to_owned());
    put(&mut all, "GROUPS", text::copied(&info.group));
    put(&mut all, "LICENSE", text::copied(&info.license));
    put(&mut all, "VALIDATION", spell(&facts.validation));
    put(&mut all, "REPLACES", text::copied(&info.replaces));
    put(&mut all, "DEPENDS", text::copied(&info.depend));
    put(&mut all, "OPTDEPENDS", text::copied(&info.optdepend));
    put(&mut all, "CONFLICTS", text::copied(&info.conflict));
    put(&mut all, "PROVIDES", text::copied(&info.provides));
    put(&mut all, "XDATA", text::copied(&info.xdata));
    assert(section_views(all@) =~= desc_sections(info@, raw@, *facts));
    Record::of(all)
}

// ---------------------------------------------------------------------------------------------
// files

/// The lines of `%BACKUP%`: a path, a tab and a hash.
pub open spec fn backup_lines(hashes: Seq<(Seq<char>, Seq<char>)>) -> Seq<Seq<char>> {
    Seq::new(hashes.len(), |i: int| hashes[i].0 + "\t"@ + hashes[i].1)
}

/// Every section a `files` can have, in order, with what it holds.
pub open spec fn files_sections(extraction: Extraction) -> Seq<SectionView> {
    seq![
        section("FILES"@, text::texts(extraction.owned@)),
        section("BACKUP"@, backup_lines(crate::install::hash_views(extraction.backup_hashes@))),
    ]
}

/// Builds the `files` record from what the installation actually laid down, not from the archive's
/// member list: a path that was never extracted is not on this system.
pub fn files(extraction: &Extraction) -> (r: Record)
    ensures
        r@ == nonempty(files_sections(*extraction)),
{
    let mut all: Vec<Section> = Vec::new();
    put(&mut all, "FILES", text::copied(&extraction.owned));
    let hashes = &extraction.backup_hashes;
    let ghost views = crate::install::hash_views(extraction.backup_hashes@);
    let ghost lines = backup_lines(views);
    let mut backups: Vec<String> = Vec::new();
    let mut i: usize = 0;
    assert(text::texts(backups@) =~= lines.take(0));
    while i < hashes.len()
        invariant
            i <= hashes.len(),
            views == crate::install::hash_views(hashes@),
            lines == backup_lines(views),
            text::texts(backups@) == lines.take(i as int),
        decreases hashes.len() - i,
    {
        let mut line = hashes[i].path.clone();
        line.push_str("\t");
        line.push_str(hashes[i].hash.as_str());
        backups.push(line);
        proof {
            assert(lines.take(i + 1) =~= lines.take(i as int).push(lines[i as int]));
        }
        i += 1;
    }
    assert(lines.take(i as int) =~= lines);
    put(&mut all, "BACKUP", backups);
    assert(section_views(all@) =~= seq![
        section("FILES"@, text::texts(extraction.owned@)),
        section("BACKUP"@, lines),
    ]);
    Record::of(all)
}

// ---------------------------------------------------------------------------------------------
// Laws

/// Whether a section can be written: its keyword and its values fit on a line each, and no value
/// is empty.
pub open spec fn writable(section: SectionView) -> bool {
    &&& text::one_liner(section.keyword)
    &&& forall|i: int|
        0 <= i < section.values.len() ==> text::one_liner(#[trigger] section.values[i])
            && section.values[i].len() > 0
}

/// The lines of a section.
spec fn section_lines(section: SectionView) -> Seq<Seq<char>> {
    (seq![header(section.keyword)] + section.values).push(Seq::empty())
}

/// The lines of the first sections.
spec fn all_lines(sections: Seq<SectionView>) -> Seq<Seq<char>>
    decreases sections.len(),
{
    if sections.len() == 0 {
        Seq::empty()
    } else {
        all_lines(sections.drop_last()) + section_lines(sections.last())
    }
}

/// A section's text is its lines, each ended.
proof fn lemma_section_text(section: SectionView)
    ensures
        text::unlines(section_lines(section)) == section_text(section),
{
    let head = seq![header(section.keyword)];
    let none = Seq::<char>::empty();
    text::lemma_unlines_push(Seq::empty(), header(section.keyword));
    assert(Seq::<Seq<char>>::empty().push(header(section.keyword)) =~= head);
    assert(text::unlines(Seq::<Seq<char>>::empty()) =~= Seq::<char>::empty());
    assert(text::unlines(head) =~= header(section.keyword).push('\n'));
    text::lemma_unlines_add(head, section.values);
    text::lemma_unlines_push(head + section.values, none);
    assert(none.push('\n') =~= seq!['\n']);
}

/// A record's text is its lines, each ended.
proof fn lemma_rendered(sections: Seq<SectionView>)
    ensures
        text::unlines(all_lines(sections)) == rendered(sections),
    decreases sections.len(),
{
    if sections.len() > 0 {
        lemma_rendered(sections.drop_last());
        lemma_section_text(sections.last());
        text::lemma_unlines_add(all_lines(sections.drop_last()), section_lines(sections.last()));
    }
}

/// The lines of writable sections fit on a line each.
proof fn lemma_one_liners(sections: Seq<SectionView>, k: int)
    requires
        forall|i: int| 0 <= i < sections.len() ==> writable(#[trigger] sections[i]),
        0 <= k < all_lines(sections).len(),
    ensures
        text::one_liner(all_lines(sections)[k]),
    decreases sections.len(),
{
    if sections.len() > 0 {
        let fewer = sections.drop_last();
        let last = sections.last();
        assert(writable(sections[sections.len() - 1]));
        assert forall|i: int| 0 <= i < fewer.len() implies writable(#[trigger] fewer[i]) by {
            assert(fewer[i] == sections[i]);
        }
        let before = all_lines(fewer);
        let lines = section_lines(last);
        if k < before.len() {
            lemma_one_liners(fewer, k);
        } else {
            let at = k - before.len();
            assert(all_lines(sections)[k] == lines[at]);
            if at == 0 {
                let sign = seq!['%'];
                assert(text::one_liner(sign));
                text::lemma_one_liner_add(sign, last.keyword);
                text::lemma_one_liner_add(sign + last.keyword, sign);
            } else if at <= last.values.len() {
                assert(lines[at] == last.values[at - 1]);
            } else {
                assert(text::one_liner(Seq::empty()));
            }
        }
    }
}

/// The values of a section are read one by one.
proof fn lemma_values_read(
    before: Seq<Seq<char>>,
    done: Seq<SectionView>,
    section: SectionView,
    k: int,
)
    requires
        after_lines(before) == Some(Reading { done, open: None }),
        writable(section),
        0 <= k <= section.values.len(),
    ensures
        after_lines(before.push(header(section.keyword)) + section.values.take(k)) == Some(
            Reading {
                done,
                open: Some(
                    SectionView { keyword: section.keyword, values: section.values.take(k) },
                ),
            },
        ),
    decreases k,
{
    let started = before.push(header(section.keyword));
    let lines = started + section.values.take(k);
    if k == 0 {
        assert(lines =~= started);
        assert(started.drop_last() =~= before);
        let line = header(section.keyword);
        assert(line.subrange(1, line.len() - 1) =~= section.keyword);
        assert(section.values.take(0) =~= Seq::<Seq<char>>::empty());
    } else {
        lemma_values_read(before, done, section, k - 1);
        let value = section.values[k - 1];
        assert(text::one_liner(value) && value.len() > 0);
        assert(lines.last() == value);
        assert(lines.drop_last() =~= started + section.values.take(k - 1));
        assert(section.values.take(k) =~= section.values.take(k - 1).push(value));
    }
}

/// The lines of writable sections are read back.
proof fn lemma_lines_read(sections: Seq<SectionView>)
    requires
        forall|i: int| 0 <= i < sections.len() ==> writable(#[trigger] sections[i]),
    ensures
        after_lines(all_lines(sections)) == Some(Reading { done: sections, open: None }),
    decreases sections.len(),
{
    if sections.len() == 0 {
        assert(sections =~= Seq::<SectionView>::empty());
    } else {
        let fewer = sections.drop_last();
        let last = sections.last();
        assert(writable(sections[sections.len() - 1]));
        assert forall|i: int| 0 <= i < fewer.len() implies writable(#[trigger] fewer[i]) by {
            assert(fewer[i] == sections[i]);
        }
        lemma_lines_read(fewer);
        let before = all_lines(fewer);
        lemma_values_read(before, fewer, last, last.values.len() as int);
        assert(last.values.take(last.values.len() as int) =~= last.values);
        let open = before.push(header(last.keyword)) + last.values;
        let whole = all_lines(sections);
        assert(whole.drop_last() =~= open);
        assert(whole.last() =~= Seq::<char>::empty());
        assert(fewer.push(SectionView { keyword: last.keyword, values: last.values }) =~= sections);
    }
}

/// What is written reads back: the sections of a record's text are the record's.
pub proof fn a_record_reads_back(sections: Seq<SectionView>)
    requires
        forall|i: int| 0 <= i < sections.len() ==> writable(#[trigger] sections[i]),
    ensures
        sections_of(rendered(sections)) == Some(sections),
{
    lemma_rendered(sections);
    let lines = all_lines(sections);
    assert forall|k: int| 0 <= k < lines.len() implies text::one_liner(#[trigger] lines[k]) by {
        lemma_one_liners(sections, k);
    }
    text::lemma_lines_of_unlines(lines);
    lemma_lines_read(sections);
}

/// No empty section is written.
pub proof fn no_section_is_empty(sections: Seq<SectionView>, i: int)
    requires
        0 <= i < nonempty(sections).len(),
    ensures
        nonempty(sections)[i].values.len() > 0,
{
    sections.lemma_filter_contains_rev(
        |section: SectionView| section.values.len() > 0,
        nonempty(sections)[i],
    );
}

} // verus!
