//! Package versions and the names that carry them.
//!
//! Which versions there are and how they are ordered is `alpm-types`'s to say. This module holds
//! versions as text and asks the crate.

use vstd::prelude::*;
use vstd::slice::slice_subrange;

use crate::text;

verus! {

/// How `alpm_types::FullVersion` orders two versions: -1, 0 or 1, or `None` where one of the texts
/// is no full version.
pub uninterp spec fn version_order(a: Seq<char>, b: Seq<char>) -> Option<i8>;

/// Whether `c` is an ASCII letter or digit.
pub open spec fn is_alphanumeric(c: char) -> bool {
    text::is_digit(c) || 'a' <= c <= 'z' || 'A' <= c <= 'Z'
}

/// Whether a text is a package's name: ASCII letters, digits and any of `@ _ + - .`, of which the
/// last two do not come first.
pub open spec fn is_name(s: Seq<char>) -> bool {
    &&& s.len() > 0
    &&& s[0] != '-' && s[0] != '.'
    &&& forall|i: int|
        0 <= i < s.len() ==> is_alphanumeric(#[trigger] s[i]) || s[i] == '@' || s[i] == '_' || s[i]
            == '+' || s[i] == '-' || s[i] == '.'
}

/// Whether `alpm_types::FullVersion` accepts a text as a full version.
pub uninterp spec fn is_full_version(s: Seq<char>) -> bool;

/// How `std` renders a text for a reader who has to see where it starts and ends: in double
/// quotes, with what cannot be shown escaped.
pub uninterp spec fn debug_text(s: Seq<char>) -> Seq<char>;

/// `alpm_types::Name::from_str` accepts the texts that are names of packages, and no others.
#[verifier::external_body]
pub(crate) fn known_name(s: &str) -> (r: bool)
    ensures
        r == is_name(s@),
{
    s.parse::<alpm_types::Name>().is_ok()
}

/// Whether a text states a package relation: a name, alone or with a version it is compared to.
pub uninterp spec fn is_relation(s: Seq<char>) -> bool;

/// `alpm_types::PackageRelation::from_str` reads a package relation. Whether it does so depends on
/// the text alone; which texts are relations is left unsaid.
#[verifier::external_body]
pub(crate) fn known_relation(s: &str) -> (r: bool)
    ensures
        r == is_relation(s@),
{
    s.parse::<alpm_types::PackageRelation>().is_ok()
}

/// `alpm_types::FullVersion::from_str` says which texts are full versions.
///
/// The result is named: the grammar of versions is the crate's to say.
#[verifier::external_body]
pub(crate) fn known_version(s: &str) -> (r: bool)
    ensures
        r == is_full_version(s@),
{
    s.parse::<alpm_types::FullVersion>().is_ok()
}

/// `<str as std::fmt::Debug>::fmt` renders a text in quotes.
///
/// The result is named: which characters are escaped, and how, is `std`'s to say.
#[verifier::external_body]
pub(crate) fn quoted(s: &str) -> (r: String)
    ensures
        r@ == debug_text(s@),
{
    format!("{s:?}")
}

/// Why a package is installed.
#[derive(Clone, Copy, Debug, Eq, PartialEq, Structural)]
pub enum InstallReason {
    /// The user asked for it.
    Explicit,
    /// A dependency pulled it in.
    Depend,
}

/// What a package's file name says.
pub struct FileNameView {
    /// The package's name.
    pub name: Seq<char>,
    /// Its version.
    pub version: Seq<char>,
    /// Its architecture.
    pub architecture: Seq<char>,
    /// The file name, as the crate renders it.
    pub rendered: Seq<char>,
}

/// What `alpm_types::PackageFileName` reads out of a file name.
pub uninterp spec fn file_name_of(s: Seq<char>) -> Option<FileNameView>;

/// The number that the digits right before `n` spell, 0 where there are none.
pub open spec fn number_before(s: Seq<char>, n: int) -> nat
    decreases n,
{
    if n <= 0 || n > s.len() || !text::is_digit(s[n - 1]) {
        0
    } else {
        number_before(s, n - 1) * 10 + (s[n - 1] as nat - '0' as nat) as nat
    }
}

/// Whether every run of digits in a text, leading zeros aside, spells a machine number. Versions
/// are compared number by number.
pub open spec fn comparable(s: Seq<char>) -> bool {
    forall|n: int| 0 <= n <= s.len() ==> #[trigger] number_before(s, n) <= usize::MAX
}

/// A full version without its release: what comes before the first `-`.
pub open spec fn without_release(s: Seq<char>) -> Seq<char> {
    match text::split_once(s, '-') {
        Some((version, _)) => version,
        None => s,
    }
}

/// Whether two versions can be ordered: releases of one version can, and releases of two where both
/// are comparable.
pub open spec fn orderable(a: Seq<char>, b: Seq<char>) -> bool {
    without_release(a) == without_release(b) || (comparable(a) && comparable(b))
}

/// How two versions are ordered, where they can be.
pub open spec fn ordered(a: Seq<char>, b: Seq<char>) -> Option<i8> {
    if orderable(a, b) {
        version_order(a, b)
    } else {
        None
    }
}

/// `alpm_types::FullVersion::from_str` and `vercmp` order two versions.
///
/// They read each run of digits as a machine number, and panic where one is too large for that,
/// unless the texts are the same up to the release, whose numbers are read when the texts are.
/// The result is named, and is -1, 0 or 1. That the order is a total order is left unsaid.
#[verifier::external_body]
pub(crate) fn compare(a: &str, b: &str) -> (r: Option<i8>)
    requires
        orderable(a@, b@),
    ensures
        match r {
            Some(n) => version_order(a@, b@) == Some(n) && -1 <= n <= 1,
            None => version_order(a@, b@) is None,
        },
{
    let a: alpm_types::FullVersion = a.parse().ok()?;
    let b: alpm_types::FullVersion = b.parse().ok()?;
    Some(a.vercmp(&b))
}

/// Whether a version can be compared with others.
pub fn is_comparable(s: &str) -> (r: bool)
    ensures
        r == comparable(s@),
{
    let all = text::chars(s);
    let mut number: usize = 0;
    let mut i: usize = 0;
    while i < all.len()
        invariant
            i <= all.len(),
            all@ == s@,
            number == number_before(s@, i as int),
            forall|n: int| 0 <= n <= i ==> #[trigger] number_before(s@, n) <= usize::MAX,
        decreases all.len() - i,
    {
        let c = all[i];
        if '0' <= c && c <= '9' {
            let digit = (c as u32 - '0' as u32) as usize;
            assert(number_before(s@, i + 1) == number * 10 + digit);
            if number > (usize::MAX - digit) / 10 {
                assert(number_before(s@, i + 1) > usize::MAX);
                return false;
            }
            number = number * 10 + digit;
        } else {
            assert(number_before(s@, i + 1) == 0);
            number = 0;
        }
        i += 1;
    }
    true
}

/// Whether two full versions are the same up to the release.
fn is_same_version(a: &str, b: &str) -> (r: bool)
    ensures
        r == (without_release(a@) == without_release(b@)),
{
    let first = text::chars(a);
    let second = text::chars(b);
    let ours = match text::cut_once(first.as_slice(), '-') {
        Some((version, _)) => version,
        None => first.as_slice(),
    };
    let theirs = match text::cut_once(second.as_slice(), '-') {
        Some((version, _)) => version,
        None => second.as_slice(),
    };
    text::equal(ours, theirs)
}

/// How two versions are ordered: -1, 0 or 1, or `None` where they cannot be.
pub fn order(a: &str, b: &str) -> (r: Option<i8>)
    ensures
        r == ordered(a@, b@),
{
    if is_same_version(a, b) || (is_comparable(a) && is_comparable(b)) {
        compare(a, b)
    } else {
        None
    }
}

/// A package's file name, taken apart.
#[derive(Clone, Debug, Eq, PartialEq)]
pub struct FileName {
    /// The package's name.
    pub name: String,
    /// Its version.
    pub version: String,
    /// Its architecture.
    pub architecture: String,
    /// The file name.
    pub rendered: String,
}

impl View for FileName {
    type V = FileNameView;

    open spec fn view(&self) -> FileNameView {
        FileNameView {
            name: self.name@,
            version: self.version@,
            architecture: self.architecture@,
            rendered: self.rendered@,
        }
    }
}

/// `alpm_types::PackageFileName::from_str` takes a package's file name apart.
///
/// The result is named: which texts are package file names is the crate's grammar.
#[verifier::external_body]
pub(crate) fn parse_file_name(s: &str) -> (r: Option<FileName>)
    ensures
        match r {
            Some(f) => file_name_of(s@) == Some(f@),
            None => file_name_of(s@) is None,
        },
{
    let parsed: alpm_types::PackageFileName = s.parse().ok()?;
    Some(FileName {
        name: parsed.name().to_string(),
        version: parsed.version().to_string(),
        architecture: parsed.architecture().to_string(),
        rendered: parsed.to_string(),
    })
}

/// The words with which `alpm_types::PackageFileName::from_str` refuses a text. They depend on the
/// locale, so nothing is said of them.
#[verifier::external_body]
pub(crate) fn file_name_refusal(s: &str) -> (r: String) {
    match s.parse::<alpm_types::PackageFileName>() {
        Ok(_) => String::new(),
        Err(error) => error.to_string(),
    }
}

/// An installed package: its name and its version.
///
/// Its entry in the local database is the directory `<name>-<version>`.
#[derive(Debug, Eq, PartialEq)]
pub struct EntryName {
    /// The package's name.
    pub name: String,
    /// Its version.
    pub version: String,
}

/// What an [`EntryName`] says.
pub struct EntryNameView {
    /// The name.
    pub name: Seq<char>,
    /// The version.
    pub version: Seq<char>,
}

impl View for EntryName {
    type V = EntryNameView;

    open spec fn view(&self) -> EntryNameView {
        EntryNameView { name: self.name@, version: self.version@ }
    }
}

impl EntryNameView {
    /// The entry's directory name.
    pub open spec fn directory(self) -> Seq<char> {
        self.name.push('-') + self.version
    }
}

impl EntryName {
    /// The entry's directory name.
    pub fn directory(&self) -> (r: String)
        ensures
            r@ == self@.directory(),
    {
        let mut out = self.name.clone();
        out.push('-');
        out.push_str(self.version.as_str());
        out
    }
}

impl Clone for EntryName {
    fn clone(&self) -> (r: Self)
        ensures
            r@ == self@,
    {
        EntryName { name: self.name.clone(), version: self.version.clone() }
    }
}

/// Where an entry's directory name has the dash between name and version: the last but one.
pub open spec fn version_dash(s: Seq<char>) -> Option<int> {
    match text::last_of(s, '-', '-') {
        Some(i) => text::last_of(s.take(i), '-', '-'),
        None => None,
    }
}

/// What an entry's directory name says, where it is one: the name and the version round the last
/// dash but one.
pub open spec fn entry_of(s: Seq<char>) -> Option<EntryNameView> {
    match version_dash(s) {
        Some(i) => if is_name(s.take(i)) && is_full_version(s.skip(i + 1)) {
            Some(EntryNameView { name: s.take(i), version: s.skip(i + 1) })
        } else {
            None
        },
        None => None,
    }
}

impl EntryName {
    /// Takes an entry's directory name apart.
    pub fn parse(s: &str) -> (r: Option<Self>)
        ensures
            match r {
                Some(entry) => entry_of(s@) == Some(entry@),
                None => entry_of(s@) is None,
            },
    {
        let (name, version) = match EntryName::split(s) {
            Some(parts) => parts,
            None => {
                return None;
            },
        };
        let known = known_name(name.as_str()) && known_version(version.as_str());
        EntryName::checked(name, version, known)
    }

    /// The parts of a directory name round the last dash but one.
    pub fn split(s: &str) -> (r: Option<(String, String)>)
        ensures
            match r {
                Some((name, version)) => {
                    &&& version_dash(s@) is Some
                    &&& name@ == s@.take(version_dash(s@)->0)
                    &&& version@ == s@.skip(version_dash(s@)->0 + 1)
                },
                None => version_dash(s@) is None,
            },
    {
        let all = text::chars(s);
        let whole = all.as_slice();
        let last = match text::rfind_either(whole, '-', '-') {
            Some(i) => i,
            None => {
                return None;
            },
        };
        let head = slice_subrange(whole, 0, last);
        assert(head@ =~= s@.take(last as int));
        let at = match text::rfind_either(head, '-', '-') {
            Some(i) => i,
            None => {
                return None;
            },
        };
        let name = slice_subrange(whole, 0, at);
        let version = slice_subrange(whole, at + 1, whole.len());
        assert(name@ =~= s@.take(at as int));
        assert(version@ =~= s@.skip(at + 1));
        Some((text::text(name), text::text(version)))
    }

    /// The entry of a name and a version, where both are known to be well formed.
    pub fn checked(name: String, version: String, known: bool) -> (r: Option<Self>)
        ensures
            match r {
                Some(entry) => known && entry@ == (EntryNameView { name: name@, version: version@ }),
                None => !known,
            },
    {
        if known {
            Some(EntryName { name, version })
        } else {
            None
        }
    }
}

} // verus!
