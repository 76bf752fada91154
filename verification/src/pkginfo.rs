//! Reading a `.PKGINFO`, with the one compatibility shim its typed parse needs.
//!
//! The typed parse converts every field or none, so one value it refuses costs a package file its
//! every field. That value is `packager`: it demands an email address, and makepkg writes
//! [`UNKNOWN_PACKAGER`] whenever no packager is configured, which is how it ships.
//!
//! [`crate::record::desc`] writes the packager from the raw text rather than from the parsed
//! value, so the substitute made here is never stored.

use std::str::FromStr;

use vstd::prelude::*;

use crate::text;

verus! {

broadcast use crate::text::group_lists;

/// What makepkg writes where no packager is configured.
pub const UNKNOWN_PACKAGER: &'static str = "Unknown Packager";

/// What a `packager` line starts with.
pub const PACKAGER_PREFIX: &'static str = "packager = ";

/// The line put in place of makepkg's default, so the typed parse accepts the file.
pub const UNKNOWN_PACKAGER_SUBSTITUTE: &'static str =
    "packager = Unknown Packager <unknown@example.invalid>";

// ---------------------------------------------------------------------------------------------
// The typed parse

/// A text that the typed parse refuses.
#[derive(Clone, Debug, Eq, PartialEq)]
pub struct Refused {
    /// Why, in words.
    pub words: String,
}

/// A `.PKGINFO` as the typed parse writes it again: one `key = value` line for each field, with
/// each value in its canonical spelling. `None` where the typed parse refuses the text.
pub uninterp spec fn typed_text(s: Seq<char>) -> Option<Seq<char>>;

/// The extra data of a `.PKGINFO`, in its order.
pub uninterp spec fn extra_data(s: Seq<char>) -> Seq<Seq<char>>;

/// `alpm_pkginfo::PackageInfo::from_str` reads a `.PKGINFO`, and its `Display` writes it again.
/// Both depend on the text alone; which texts are accepted, and how values are spelled, is left
/// unsaid. So are the words of a refusal, which depend on the locale.
#[verifier::external_body]
pub(crate) fn typed(s: &str) -> (r: Result<String, Refused>)
    ensures
        match r {
            Ok(written) => typed_text(s@) == Some(written@),
            Err(_) => typed_text(s@) is None,
        },
{
    match alpm_pkginfo::PackageInfo::from_str(s) {
        Ok(info) => Ok(info.to_string()),
        Err(error) => Err(Refused { words: error.to_string() }),
    }
}

/// The extra data that `alpm_pkginfo::PackageInfo::from_str` reads, entry by entry, as
/// `alpm_types::ExtraDataEntry`'s `Display` writes each. There is none in a file of the first
/// version, nor where the text is refused.
#[verifier::external_body]
pub(crate) fn extra(s: &str) -> (r: Vec<String>)
    ensures
        text::texts(r@) == extra_data(s@),
{
    match alpm_pkginfo::PackageInfo::from_str(s) {
        Ok(alpm_pkginfo::PackageInfo::V2(info)) => {
            info.xdata.into_iter().map(|entry| entry.to_string()).collect()
        },
        Ok(alpm_pkginfo::PackageInfo::V1(_)) => Vec::new(),
        Err(_) => Vec::new(),
    }
}

// ---------------------------------------------------------------------------------------------
// Fields

/// What the lines from `i` on say of a key: the value of the first `key = value` line. A line that
/// starts with `#` is a comment.
pub open spec fn field_from(lines: Seq<Seq<char>>, key: Seq<char>, i: int) -> Option<Seq<char>>
    decreases lines.len() - i,
{
    if i >= lines.len() {
        None
    } else {
        match value_in(lines[i], key) {
            Some(value) => Some(value),
            None => field_from(lines, key, i + 1),
        }
    }
}

/// The value of a line, where it is that of a key.
pub open spec fn value_in(line: Seq<char>, key: Seq<char>) -> Option<Seq<char>> {
    if line.len() > 0 && line[0] == '#' {
        None
    } else {
        match text::split_once_text(line, " = "@) {
            Some((name, value)) => if name == key {
                Some(value)
            } else {
                None
            },
            None => None,
        }
    }
}

/// The value of the first line of a key.
pub open spec fn field_of(s: Seq<char>, key: Seq<char>) -> Option<Seq<char>> {
    field_from(text::lines(s), key, 0)
}

/// The values of the first lines of a key, in order.
pub open spec fn values_in(lines: Seq<Seq<char>>, key: Seq<char>) -> Seq<Seq<char>>
    decreases lines.len(),
{
    if lines.len() == 0 {
        Seq::empty()
    } else {
        let before = values_in(lines.drop_last(), key);
        match value_in(lines.last(), key) {
            Some(value) => before.push(value),
            None => before,
        }
    }
}

/// The values of all lines of a key, in order.
pub open spec fn values_of(s: Seq<char>, key: Seq<char>) -> Seq<Seq<char>> {
    values_in(text::lines(s), key)
}

/// The value of a line, where it is that of a key.
fn value_at<'a>(line: &'a [char], key: &str) -> (r: Option<&'a [char]>)
    ensures
        match r {
            Some(value) => value_in(line@, key@) == Some(value@),
            None => value_in(line@, key@) is None,
        },
{
    if line.len() > 0 && line[0] == '#' {
        return None;
    }
    match text::cut_once_text(line, " = ") {
        Some((name, value)) => {
            if text::spells(name, key) {
                Some(value)
            } else {
                None
            }
        },
        None => None,
    }
}

/// The verbatim value of the first `key = value` line of a key.
///
/// Only fields that must round-trip as they are written are read this way from the raw text.
pub fn raw_field(raw: &str, key: &str) -> (r: Option<String>)
    ensures
        text::maybe(r) == field_of(raw@, key@),
{
    let all = text::chars(raw);
    let lines = text::split_lines(all.as_slice());
    let ghost views = text::pieces(lines@);
    let mut i: usize = 0;
    while i < lines.len()
        invariant
            i <= lines.len(),
            views == text::pieces(lines@),
            views == text::lines(raw@),
            field_from(views, key@, 0) == field_from(views, key@, i as int),
        decreases lines.len() - i,
    {
        assert(views[i as int] == lines@[i as int]@);
        if let Some(value) = value_at(lines[i], key) {
            return Some(text::text(value));
        }
        i += 1;
    }
    None
}

/// The values of all lines of a key, in order.
pub fn raw_fields(raw: &str, key: &str) -> (r: Vec<String>)
    ensures
        text::texts(r@) == values_of(raw@, key@),
{
    let all = text::chars(raw);
    let lines = text::split_lines(all.as_slice());
    let ghost views = text::pieces(lines@);
    let mut out: Vec<String> = Vec::new();
    let mut i: usize = 0;
    assert(views.take(0) =~= Seq::<Seq<char>>::empty());
    assert(text::texts(out@) =~= Seq::<Seq<char>>::empty());
    while i < lines.len()
        invariant
            i <= lines.len(),
            views == text::pieces(lines@),
            text::texts(out@) == values_in(views.take(i as int), key@),
        decreases lines.len() - i,
    {
        proof {
            let so_far = views.take(i + 1);
            assert(so_far.drop_last() =~= views.take(i as int));
            assert(so_far.last() == lines@[i as int]@);
        }
        if let Some(value) = value_at(lines[i], key) {
            out.push(text::text(value));
        }
        i += 1;
    }
    assert(views.take(i as int) =~= views);
    out
}

// ---------------------------------------------------------------------------------------------
// The parsed file

/// A parsed `.PKGINFO`.
#[derive(Clone, Debug, Eq, PartialEq)]
pub struct PackageInfo {
    /// The package's name.
    pub pkgname: String,
    /// The name of what it was built from.
    pub pkgbase: String,
    /// Its version.
    pub pkgver: String,
    /// Its description.
    pub pkgdesc: String,
    /// Its home page, normalised.
    pub url: String,
    /// When it was built, in seconds since the epoch.
    pub builddate: String,
    /// Who built it.
    pub packager: String,
    /// Its installed size in bytes.
    pub size: String,
    /// Its architecture.
    pub arch: String,
    /// Its licenses.
    pub license: Vec<String>,
    /// The packages it replaces.
    pub replaces: Vec<String>,
    /// The groups it belongs to.
    pub group: Vec<String>,
    /// The packages it conflicts with.
    pub conflict: Vec<String>,
    /// What it provides.
    pub provides: Vec<String>,
    /// What it depends on.
    pub depend: Vec<String>,
    /// What it can make use of.
    pub optdepend: Vec<String>,
    /// Its extra data. There is none in a file of the first version.
    pub xdata: Vec<String>,
}

/// What a [`PackageInfo`] holds.
pub struct PackageInfoView {
    /// The package's name.
    pub pkgname: Seq<char>,
    /// The name of what it was built from.
    pub pkgbase: Seq<char>,
    /// Its version.
    pub pkgver: Seq<char>,
    /// Its description.
    pub pkgdesc: Seq<char>,
    /// Its home page.
    pub url: Seq<char>,
    /// When it was built.
    pub builddate: Seq<char>,
    /// Who built it.
    pub packager: Seq<char>,
    /// Its installed size.
    pub size: Seq<char>,
    /// Its architecture.
    pub arch: Seq<char>,
    /// Its licenses.
    pub license: Seq<Seq<char>>,
    /// The packages it replaces.
    pub replaces: Seq<Seq<char>>,
    /// The groups it belongs to.
    pub group: Seq<Seq<char>>,
    /// The packages it conflicts with.
    pub conflict: Seq<Seq<char>>,
    /// What it provides.
    pub provides: Seq<Seq<char>>,
    /// What it depends on.
    pub depend: Seq<Seq<char>>,
    /// What it can make use of.
    pub optdepend: Seq<Seq<char>>,
    /// Its extra data.
    pub xdata: Seq<Seq<char>>,
}

impl View for PackageInfo {
    type V = PackageInfoView;

    open spec fn view(&self) -> PackageInfoView {
        PackageInfoView {
            pkgname: self.pkgname@,
            pkgbase: self.pkgbase@,
            pkgver: self.pkgver@,
            pkgdesc: self.pkgdesc@,
            url: self.url@,
            builddate: self.builddate@,
            packager: self.packager@,
            size: self.size@,
            arch: self.arch@,
            license: text::texts(self.license@),
            replaces: text::texts(self.replaces@),
            group: text::texts(self.group@),
            conflict: text::texts(self.conflict@),
            provides: text::texts(self.provides@),
            depend: text::texts(self.depend@),
            optdepend: text::texts(self.optdepend@),
            xdata: text::texts(self.xdata@),
        }
    }
}

/// The value of a field that is always there.
pub open spec fn one_of(s: Seq<char>, key: Seq<char>) -> Seq<char> {
    match field_of(s, key) {
        Some(value) => value,
        None => Seq::empty(),
    }
}

/// What the lines of a `.PKGINFO` say, with the extra data it has.
pub open spec fn info_of(s: Seq<char>, xdata: Seq<Seq<char>>) -> PackageInfoView {
    PackageInfoView {
        pkgname: one_of(s, "pkgname"@),
        pkgbase: one_of(s, "pkgbase"@),
        pkgver: one_of(s, "pkgver"@),
        pkgdesc: one_of(s, "pkgdesc"@),
        url: one_of(s, "url"@),
        builddate: one_of(s, "builddate"@),
        packager: one_of(s, "packager"@),
        size: one_of(s, "size"@),
        arch: one_of(s, "arch"@),
        license: values_of(s, "license"@),
        replaces: values_of(s, "replaces"@),
        group: values_of(s, "group"@),
        conflict: values_of(s, "conflict"@),
        provides: values_of(s, "provides"@),
        depend: values_of(s, "depend"@),
        optdepend: values_of(s, "optdepend"@),
        xdata,
    }
}

/// The value of a field that is always there.
fn only(s: &str, key: &str) -> (r: String)
    ensures
        r@ == one_of(s@, key@),
{
    match raw_field(s, key) {
        Some(value) => value,
        None => {
            let none = String::new();
            assert(none@ =~= Seq::<char>::empty());
            none
        },
    }
}

/// Takes a `.PKGINFO` apart, as the typed parse writes it, with the extra data it has.
pub fn read(written: &str, xdata: Vec<String>) -> (r: PackageInfo)
    ensures
        r@ == info_of(written@, text::texts(xdata@)),
{
    PackageInfo {
        pkgname: only(written, "pkgname"),
        pkgbase: only(written, "pkgbase"),
        pkgver: only(written, "pkgver"),
        pkgdesc: only(written, "pkgdesc"),
        url: only(written, "url"),
        builddate: only(written, "builddate"),
        packager: only(written, "packager"),
        size: only(written, "size"),
        arch: only(written, "arch"),
        license: raw_fields(written, "license"),
        replaces: raw_fields(written, "replaces"),
        group: raw_fields(written, "group"),
        conflict: raw_fields(written, "conflict"),
        provides: raw_fields(written, "provides"),
        depend: raw_fields(written, "depend"),
        optdepend: raw_fields(written, "optdepend"),
        xdata,
    }
}

// ---------------------------------------------------------------------------------------------
// The shim

/// Whether a line is the `packager` line makepkg writes where none is configured.
pub open spec fn is_default_packager(line: Seq<char>) -> bool {
    text::strip_prefix(line, PACKAGER_PREFIX@) == Some(UNKNOWN_PACKAGER@)
}

/// A line, or the one that stands in for it.
pub open spec fn stand_in(line: Seq<char>) -> Seq<char> {
    if is_default_packager(line) {
        UNKNOWN_PACKAGER_SUBSTITUTE@
    } else {
        line
    }
}

/// Whether some line is makepkg's default.
pub open spec fn has_default_packager(s: Seq<char>) -> bool {
    exists|i: int| 0 <= i < text::lines(s).len() && is_default_packager(#[trigger] text::lines(s)[i])
}

/// A text with every default `packager` line replaced. One without any is left as it is.
pub open spec fn substituted(s: Seq<char>) -> Seq<char> {
    if has_default_packager(s) {
        text::unlines(Seq::new(text::lines(s).len(), |i: int| stand_in(text::lines(s)[i])))
    } else {
        s
    }
}

/// Whether a line is the `packager` line makepkg writes where none is configured.
fn is_unknown_packager(line: &[char]) -> (r: bool)
    ensures
        r == is_default_packager(line@),
{
    match text::after_text(line, PACKAGER_PREFIX) {
        Some(rest) => text::spells(rest, UNKNOWN_PACKAGER),
        None => false,
    }
}

/// Rewrites every `packager` line holding [`UNKNOWN_PACKAGER`] into one that parses. `None` says
/// that there is nothing to rewrite, which is every package built by someone who has a name.
pub fn substitute_unknown_packager(raw: &str) -> (r: Option<String>)
    ensures
        match r {
            Some(rewritten) => has_default_packager(raw@) && rewritten@ == substituted(raw@),
            None => !has_default_packager(raw@),
        },
{
    let all = text::chars(raw);
    let lines = text::split_lines(all.as_slice());
    let ghost views = text::pieces(lines@);
    let mut found = false;
    let mut i: usize = 0;
    while i < lines.len()
        invariant
            i <= lines.len(),
            views == text::pieces(lines@),
            views == text::lines(raw@),
            found ==> has_default_packager(raw@),
            !found ==> forall|k: int| 0 <= k < i ==> !is_default_packager(#[trigger] views[k]),
        decreases lines.len() - i,
    {
        assert(views[i as int] == lines@[i as int]@);
        if is_unknown_packager(lines[i]) {
            assert(is_default_packager(text::lines(raw@)[i as int]));
            found = true;
        }
        i += 1;
    }
    if !found {
        return None;
    }
    let mut out = String::new();
    let ghost changed = Seq::new(views.len(), |k: int| stand_in(views[k]));
    let mut j: usize = 0;
    assert(out@ =~= text::unlines(changed.take(0)));
    while j < lines.len()
        invariant
            j <= lines.len(),
            views == text::pieces(lines@),
            changed == Seq::new(views.len(), |k: int| stand_in(views[k])),
            out@ == text::unlines(changed.take(j as int)),
        decreases lines.len() - j,
    {
        let ghost before = out@;
        if is_unknown_packager(lines[j]) {
            out.push_str(UNKNOWN_PACKAGER_SUBSTITUTE);
        } else {
            out.push_str(text::text(lines[j]).as_str());
        }
        out.push('\n');
        proof {
            assert(changed[j as int] == stand_in(lines@[j as int]@));
            assert(changed.take(j + 1) =~= changed.take(j as int).push(changed[j as int]));
            text::lemma_unlines_push(changed.take(j as int), changed[j as int]);
            assert(out@ =~= before + changed[j as int].push('\n'));
        }
        j += 1;
    }
    proof {
        assert(changed.take(j as int) =~= changed);
        assert(changed =~= Seq::new(
            text::lines(raw@).len(),
            |i: int| stand_in(text::lines(raw@)[i]),
        ));
    }
    Some(out)
}

/// Parses a `.PKGINFO`, accepting makepkg's default packager.
///
/// Only that value is made up for. Every other one the typed parse refuses still fails, because it
/// is a defect in that package rather than a documented default of the tool that built it.
pub fn parse(raw: &str) -> (r: Result<PackageInfo, Refused>)
    ensures
        match r {
            Ok(info) => typed_text(substituted(raw@)) is Some && info@ == info_of(
                typed_text(substituted(raw@))->0,
                extra_data(substituted(raw@)),
            ),
            Err(_) => typed_text(substituted(raw@)) is None,
        },
{
    let rewritten = match substitute_unknown_packager(raw) {
        Some(rewritten) => rewritten,
        None => raw.to_owned(),
    };
    match typed(rewritten.as_str()) {
        Ok(written) => Ok(read(written.as_str(), extra(rewritten.as_str()))),
        Err(error) => Err(error),
    }
}

// ---------------------------------------------------------------------------------------------
// Laws

/// A line that is not makepkg's default stays as it is, and one that stands in is none.
pub proof fn only_the_default_packager_is_rewritten(line: Seq<char>)
    ensures
        stand_in(line) != line ==> line == PACKAGER_PREFIX@ + UNKNOWN_PACKAGER@,
        !is_default_packager(stand_in(line)),
{
    reveal_strlit("Unknown Packager");
    reveal_strlit("packager = ");
    reveal_strlit("packager = Unknown Packager <unknown@example.invalid>");
    if is_default_packager(line) {
        assert(line =~= PACKAGER_PREFIX@ + UNKNOWN_PACKAGER@);
        let rest = text::strip_prefix(UNKNOWN_PACKAGER_SUBSTITUTE@, PACKAGER_PREFIX@);
        if rest is Some {
            assert(rest->0.len() == UNKNOWN_PACKAGER_SUBSTITUTE@.len() - PACKAGER_PREFIX@.len());
        }
    }
}

/// A text whose packager has a name is handed to the parse as it is.
pub proof fn a_named_packager_is_left_alone(raw: Seq<char>)
    requires
        !has_default_packager(raw),
    ensures
        substituted(raw) == raw,
{
}

} // verus!
