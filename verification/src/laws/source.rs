//! What is read of a package's archive before it is installed.

use vstd::prelude::*;

use crate::bytes;
use crate::conflict::load::{
    backup_in, declares_backup, pkginfo_in, scriptlet_in, shipped, Read,
};
use crate::error::Limit;
use crate::extract::archive::{
    compression_of, handed_on, Arrival, Compression, Header, MemberKind, PackageLimits, WalkEnd,
};
use crate::extract::decision::EntryKind;
use crate::file_target::{
    candidate_of, compression_in, first_repeat, is_foreign, last_named, refused, split_url,
    FileTargetView,
};
use crate::laws::lists::{lemma_picks_agree, picks};
use crate::laws::record::{
    a_field_is_what_its_lines_say, first_of, is_key, listed, value_after,
};
use crate::paths;
use crate::pkginfo::info_of;
use crate::text;

verus! {

// ---------------------------------------------------------------------------------------------
// Members

/// How a file list spells member `i`: as the archive does, with one slash at the end of a directory.
pub open spec fn listed_as(reads: Seq<Read>, i: int) -> Seq<char> {
    let path = reads[i].member.path@;
    if reads[i].member.entry == EntryKind::Directory && (path.len() == 0 || path.last() != '/') {
        path.push('/')
    } else {
        path
    }
}

/// A package ships every member that is no metadata, in the order of its archive.
pub proof fn a_package_ships_what_is_no_metadata(reads: Seq<Read>)
    ensures
        shipped(reads) == picks(
            reads.len() as int,
            |i: int| reads[i].member.kind != MemberKind::Metadata,
            |i: int| listed_as(reads, i),
        ),
    decreases reads.len(),
{
    if reads.len() > 0 {
        let fewer = reads.drop_last();
        a_package_ships_what_is_no_metadata(fewer);
        lemma_picks_agree(
            reads.len() - 1,
            |i: int| fewer[i].member.kind != MemberKind::Metadata,
            |i: int| reads[i].member.kind != MemberKind::Metadata,
            |i: int| listed_as(fewer, i),
            |i: int| listed_as(reads, i),
        );
    }
}

/// Whether member `i` is metadata of a name, however it is spelled, that could be read.
pub open spec fn is_read(reads: Seq<Read>, name: Seq<char>, i: int) -> bool {
    &&& reads[i].member.kind == MemberKind::Metadata
    &&& paths::key_of(reads[i].member.path@) == paths::key_of(name)
    &&& reads[i].contents is Some
}

/// The `.PKGINFO` of a package is the last that is text, and its scriptlet the last `.INSTALL`.
pub proof fn the_last_metadata_counts(reads: Seq<Read>)
    ensures
        forall|i: int|
            0 <= i < reads.len() && #[trigger] is_read(reads, ".PKGINFO"@, i) && bytes::text_in(
                reads[i].contents->0@,
            ) is Some && (forall|k: int|
                i < k < reads.len() && #[trigger] is_read(reads, ".PKGINFO"@, k) ==> bytes::text_in(
                    reads[k].contents->0@,
                ) is None) ==> pkginfo_in(reads) == bytes::text_in(reads[i].contents->0@),
        pkginfo_in(reads) is Some ==> exists|i: int|
            0 <= i < reads.len() && #[trigger] is_read(reads, ".PKGINFO"@, i) && bytes::text_in(
                reads[i].contents->0@,
            ) is Some,
        forall|i: int|
            0 <= i < reads.len() && #[trigger] is_read(reads, ".INSTALL"@, i) && (forall|k: int|
                i < k < reads.len() ==> !#[trigger] is_read(reads, ".INSTALL"@, k)) ==> scriptlet_in(
                reads,
            ) == Some(reads[i].contents->0@),
        scriptlet_in(reads) is Some ==> exists|i: int|
            0 <= i < reads.len() && #[trigger] is_read(reads, ".INSTALL"@, i),
    decreases reads.len(),
{
    if reads.len() > 0 {
        let fewer = reads.drop_last();
        let last = reads.len() - 1;
        the_last_metadata_counts(fewer);
        assert forall|name: Seq<char>, i: int| 0 <= i < last implies #[trigger] is_read(
            fewer,
            name,
            i,
        ) == is_read(reads, name, i) by {
            assert(fewer[i] == reads[i]);
        }
        lemma_pkginfo(reads);
        lemma_scriptlet(reads);
    }
}

proof fn lemma_pkginfo(reads: Seq<Read>)
    requires
        reads.len() > 0,
        forall|i: int|
            0 <= i < reads.len() - 1 && #[trigger] is_read(reads.drop_last(), ".PKGINFO"@, i)
                && bytes::text_in(reads[i].contents->0@) is Some && (forall|k: int|
                i < k < reads.len() - 1 && #[trigger] is_read(reads.drop_last(), ".PKGINFO"@, k)
                    ==> bytes::text_in(reads[k].contents->0@) is None) ==> pkginfo_in(
                reads.drop_last(),
            ) == bytes::text_in(reads[i].contents->0@),
        pkginfo_in(reads.drop_last()) is Some ==> exists|i: int|
            0 <= i < reads.len() - 1 && #[trigger] is_read(reads.drop_last(), ".PKGINFO"@, i)
                && bytes::text_in(reads[i].contents->0@) is Some,
    ensures
        forall|i: int|
            0 <= i < reads.len() && #[trigger] is_read(reads, ".PKGINFO"@, i) && bytes::text_in(
                reads[i].contents->0@,
            ) is Some && (forall|k: int|
                i < k < reads.len() && #[trigger] is_read(reads, ".PKGINFO"@, k) ==> bytes::text_in(
                    reads[k].contents->0@,
                ) is None) ==> pkginfo_in(reads) == bytes::text_in(reads[i].contents->0@),
        pkginfo_in(reads) is Some ==> exists|i: int|
            0 <= i < reads.len() && #[trigger] is_read(reads, ".PKGINFO"@, i) && bytes::text_in(
                reads[i].contents->0@,
            ) is Some,
{
    let fewer = reads.drop_last();
    let last = reads.len() - 1;
    let name = ".PKGINFO"@;
    assert forall|i: int| 0 <= i < last implies #[trigger] is_read(fewer, name, i) == is_read(
        reads,
        name,
        i,
    ) by {
        assert(fewer[i] == reads[i]);
    }
    let counts = is_read(reads, name, last) && bytes::text_in(reads[last].contents->0@) is Some;
    if counts {
        assert(pkginfo_in(reads) == bytes::text_in(reads[last].contents->0@));
    } else {
        assert(pkginfo_in(reads) == pkginfo_in(fewer));
        assert forall|i: int|
            0 <= i < reads.len() && #[trigger] is_read(reads, name, i) && bytes::text_in(
                reads[i].contents->0@,
            ) is Some && (forall|k: int|
                i < k < reads.len() && #[trigger] is_read(reads, name, k) ==> bytes::text_in(
                    reads[k].contents->0@,
                ) is None) implies pkginfo_in(reads) == bytes::text_in(reads[i].contents->0@) by {
            assert(is_read(fewer, name, i));
            assert forall|k: int|
                i < k < last && #[trigger] is_read(fewer, name, k) implies bytes::text_in(
                reads[k].contents->0@,
            ) is None by {
                assert(is_read(reads, name, k));
            }
        }
        if pkginfo_in(reads) is Some {
            let i = choose|i: int|
                0 <= i < last && #[trigger] is_read(fewer, name, i) && bytes::text_in(
                    reads[i].contents->0@,
                ) is Some;
            assert(is_read(reads, name, i));
        }
    }
}

proof fn lemma_scriptlet(reads: Seq<Read>)
    requires
        reads.len() > 0,
        forall|i: int|
            0 <= i < reads.len() - 1 && #[trigger] is_read(reads.drop_last(), ".INSTALL"@, i) && (
            forall|k: int|
                i < k < reads.len() - 1 ==> !#[trigger] is_read(
                    reads.drop_last(),
                    ".INSTALL"@,
                    k,
                )) ==> scriptlet_in(reads.drop_last()) == Some(reads[i].contents->0@),
        scriptlet_in(reads.drop_last()) is Some ==> exists|i: int|
            0 <= i < reads.len() - 1 && #[trigger] is_read(reads.drop_last(), ".INSTALL"@, i),
    ensures
        forall|i: int|
            0 <= i < reads.len() && #[trigger] is_read(reads, ".INSTALL"@, i) && (forall|k: int|
                i < k < reads.len() ==> !#[trigger] is_read(reads, ".INSTALL"@, k)) ==> scriptlet_in(
                reads,
            ) == Some(reads[i].contents->0@),
        scriptlet_in(reads) is Some ==> exists|i: int|
            0 <= i < reads.len() && #[trigger] is_read(reads, ".INSTALL"@, i),
{
    let fewer = reads.drop_last();
    let last = reads.len() - 1;
    let name = ".INSTALL"@;
    assert forall|i: int| 0 <= i < last implies #[trigger] is_read(fewer, name, i) == is_read(
        reads,
        name,
        i,
    ) by {
        assert(fewer[i] == reads[i]);
    }
    if is_read(reads, name, last) {
        assert(scriptlet_in(reads) == Some(reads[last].contents->0@));
    } else {
        assert(scriptlet_in(reads) == scriptlet_in(fewer));
        assert forall|i: int|
            0 <= i < reads.len() && #[trigger] is_read(reads, name, i) && (forall|k: int|
                i < k < reads.len() ==> !#[trigger] is_read(reads, name, k)) implies scriptlet_in(
            reads,
        ) == Some(reads[i].contents->0@) by {
            assert(is_read(fewer, name, i));
            assert forall|k: int| i < k < last implies !#[trigger] is_read(fewer, name, k) by {
                assert(!is_read(reads, name, k));
            }
        }
        if scriptlet_in(reads) is Some {
            let i = choose|i: int| 0 <= i < last && #[trigger] is_read(fewer, name, i);
            assert(is_read(reads, name, i));
        }
    }
}

/// A backup file is declared by a line of its own, `backup = ` and its path.
pub proof fn a_backup_file_has_its_line(raw: Seq<char>, path: Seq<char>, i: int)
    requires
        0 <= i < text::lines(raw).len(),
        path.len() > 0,
        !text::is_space(path[0]),
        !text::is_space(path.last()),
    ensures
        text::lines(raw)[i] == "backup = "@ + path ==> declares_backup(raw, path),
        declares_backup(raw, path) ==> exists|k: int|
            0 <= k < text::lines(raw).len() && text::starts_with(
                #[trigger] text::lines(raw)[k],
                "backup = "@,
            ) && text::trim(text::lines(raw)[k].skip(9)) == path,
{
    reveal_strlit("backup = ");
    let line = text::lines(raw)[i];
    let start = "backup = "@;
    if line == start + path {
        assert(line.take(9) =~= start);
        assert(line.skip(9) =~= path);
        text::lemma_trim_bare(path);
        assert(backup_in(text::lines(raw)[i]) == Some(path));
    }
    if declares_backup(raw, path) {
        let k = choose|k: int|
            0 <= k < text::lines(raw).len() && backup_in(#[trigger] text::lines(raw)[k]) == Some(
                path,
            );
        assert(text::starts_with(text::lines(raw)[k], start));
    }
}

// ---------------------------------------------------------------------------------------------
// Walks

/// How many bytes the first `n` arrivals bring.
pub open spec fn inflated(arrivals: Seq<Arrival>, n: int) -> int
    decreases n,
{
    if n <= 0 {
        0
    } else {
        inflated(arrivals, n - 1) + match arrivals[n - 1] {
            Arrival::Inflated(count) => count as int,
            _ => 0,
        }
    }
}

/// The headers among the first `n` arrivals, in order.
pub open spec fn headers(arrivals: Seq<Arrival>, n: int) -> Seq<Header> {
    picks(n, |i: int| arrivals[i] is Member, |i: int| arrivals[i]->Member_0)
}

/// Whether a walk ends at arrival `i`: it brings more bytes or more members than the limits allow,
/// or it is a failure.
pub open spec fn stops(arrivals: Seq<Arrival>, limits: PackageLimits, i: int) -> bool {
    match arrivals[i] {
        Arrival::Inflated(_) => limits.inflated_bytes < u64::MAX && inflated(arrivals, i + 1)
            > limits.inflated_bytes,
        Arrival::Member(_) => limits.max_members < usize::MAX && headers(arrivals, i + 1).len()
            > limits.max_members,
        Arrival::Failed(_) => true,
    }
}

/// Why a walk ends at arrival `i`.
pub open spec fn why(arrivals: Seq<Arrival>, limits: PackageLimits, i: int) -> WalkEnd {
    match arrivals[i] {
        Arrival::Inflated(_) => WalkEnd::Limit(Limit::InflatedSize, limits.inflated_bytes),
        Arrival::Member(_) => WalkEnd::Limit(Limit::MemberCount, limits.max_members as u64),
        Arrival::Failed(reason) => WalkEnd::Failed(reason@),
    }
}

proof fn lemma_inflated(arrivals: Seq<Arrival>, n: int)
    ensures
        inflated(arrivals, n) >= 0,
    decreases n,
{
    if n > 0 {
        lemma_inflated(arrivals, n - 1);
    }
}

proof fn lemma_handed_on(
    arrivals: Seq<Arrival>,
    limits: PackageLimits,
    i: int,
    seen: usize,
    read: u64,
) -> (e: int)
    requires
        0 <= i <= arrivals.len(),
        seen == if headers(arrivals, i).len() < usize::MAX {
            headers(arrivals, i).len() as int
        } else {
            usize::MAX as int
        },
        read == if inflated(arrivals, i) < u64::MAX {
            inflated(arrivals, i)
        } else {
            u64::MAX as int
        },
        forall|k: int| 0 <= k < i ==> !#[trigger] stops(arrivals, limits, k),
    ensures
        i <= e <= arrivals.len(),
        forall|k: int| 0 <= k < e ==> !#[trigger] stops(arrivals, limits, k),
        headers(arrivals, i) + handed_on(arrivals, limits, i, seen, read).0 == headers(arrivals, e),
        handed_on(arrivals, limits, i, seen, read).1 == if e < arrivals.len() {
            Some(why(arrivals, limits, e))
        } else {
            None
        },
        e < arrivals.len() ==> stops(arrivals, limits, e),
    decreases arrivals.len() - i,
{
    lemma_inflated(arrivals, i);
    let (rest, end) = handed_on(arrivals, limits, i, seen, read);
    if i == arrivals.len() {
        assert(headers(arrivals, i) + rest =~= headers(arrivals, i));
        i
    } else if stops(arrivals, limits, i) {
        assert(headers(arrivals, i) + rest =~= headers(arrivals, i));
        i
    } else {
        match arrivals[i] {
            Arrival::Inflated(count) => {
                let more = crate::extract::archive::grown(read, count);
                lemma_handed_on(arrivals, limits, i + 1, seen, more)
            },
            Arrival::Member(header) => {
                let more = crate::extract::archive::counted(seen);
                let e = lemma_handed_on(arrivals, limits, i + 1, more, read);
                let tail = handed_on(arrivals, limits, i + 1, more, read).0;
                assert(headers(arrivals, i) + (seq![header] + tail) =~= headers(arrivals, i).push(
                    header,
                ) + tail);
                e
            },
            Arrival::Failed(_) => i,
        }
    }
}

/// A walk hands on every header up to the arrival it ends at, in order, and says why it ended. It
/// ends at the first arrival that is a failure or that brings too much, and nowhere else.
pub proof fn a_walk_hands_on_what_arrives(arrivals: Seq<Arrival>, limits: PackageLimits) -> (e: int)
    ensures
        0 <= e <= arrivals.len(),
        forall|k: int| 0 <= k < e ==> !#[trigger] stops(arrivals, limits, k),
        e < arrivals.len() ==> stops(arrivals, limits, e),
        handed_on(arrivals, limits, 0, 0, 0).0 == headers(arrivals, e),
        handed_on(arrivals, limits, 0, 0, 0).1 == if e < arrivals.len() {
            Some(why(arrivals, limits, e))
        } else {
            None
        },
{
    let e = lemma_handed_on(arrivals, limits, 0, 0, 0);
    let handed = handed_on(arrivals, limits, 0, 0, 0).0;
    assert(headers(arrivals, 0) + handed =~= handed);
    e
}

/// A format is told by its first bytes, and an archive that is not compressed by the tag in its
/// first header.
pub proof fn a_format_is_told_by_its_magic(rest: Seq<u8>, first: Seq<u8>)
    ensures
        compression_of(seq![0x1fu8, 0x8bu8] + rest) == Some(Compression::Gzip),
        compression_of(seq![0x28u8, 0xb5u8, 0x2fu8, 0xfdu8] + rest) == Some(Compression::Zstd),
        compression_of(seq![0xfdu8, 0x37u8, 0x7au8, 0x58u8, 0x5au8, 0x00u8] + rest) == Some(
            Compression::Xz,
        ),
        compression_of(seq![0x42u8, 0x5au8, 0x68u8] + rest) == Some(Compression::Bzip2),
        first.len() == 257 && first[0] != 0x1f && first[0] != 0x28 && first[0] != 0xfd && first[0]
            != 0x42 ==> compression_of(
            first + seq![0x75u8, 0x73u8, 0x74u8, 0x61u8, 0x72u8] + rest,
        ) == Some(Compression::Uncompressed),
        rest.len() < 257 && (rest.len() == 0 || (rest[0] != 0x1f && rest[0] != 0x28 && rest[0]
            != 0xfd && rest[0] != 0x42)) ==> compression_of(rest) is None,
{
    let gzip = seq![0x1fu8, 0x8bu8];
    let zstd = seq![0x28u8, 0xb5u8, 0x2fu8, 0xfdu8];
    let xz = seq![0xfdu8, 0x37u8, 0x7au8, 0x58u8, 0x5au8, 0x00u8];
    let bzip = seq![0x42u8, 0x5au8, 0x68u8];
    let tar = seq![0x75u8, 0x73u8, 0x74u8, 0x61u8, 0x72u8];
    let whole = first + tar + rest;
    assert((gzip + rest).take(2) =~= gzip);
    assert((zstd + rest).take(4) =~= zstd);
    assert((xz + rest).take(6) =~= xz);
    assert((bzip + rest).take(3) =~= bzip);
    lemma_first_byte(zstd + rest, gzip);
    lemma_first_byte(xz + rest, gzip);
    lemma_first_byte(xz + rest, zstd);
    lemma_first_byte(bzip + rest, gzip);
    lemma_first_byte(bzip + rest, zstd);
    lemma_first_byte(bzip + rest, xz);
    lemma_first_byte(whole, gzip);
    lemma_first_byte(whole, zstd);
    lemma_first_byte(whole, xz);
    lemma_first_byte(whole, bzip);
    lemma_first_byte(rest, gzip);
    lemma_first_byte(rest, zstd);
    lemma_first_byte(rest, xz);
    lemma_first_byte(rest, bzip);
    if first.len() == 257 {
        assert(whole[0] == first[0]);
        assert(whole.skip(257).take(5) =~= tar);
    }
}

proof fn lemma_first_byte(bytes: Seq<u8>, magic: Seq<u8>)
    requires
        magic.len() > 0,
    ensures
        crate::extract::archive::has_magic(bytes, magic) ==> bytes.len() > 0 && bytes[0]
            == magic[0],
{
    if crate::extract::archive::has_magic(bytes, magic) {
        assert(bytes.take(magic.len() as int)[0] == bytes[0]);
    }
}

// ---------------------------------------------------------------------------------------------
// Targets

/// A package file is planned with as its `.PKGINFO` says: each relation from the lines of its own
/// key, in order.
pub proof fn a_candidate_is_what_its_lines_say(
    written: Seq<char>,
    xdata: Seq<Seq<char>>,
    path: Seq<char>,
)
    ensures
        ({
            let candidate = candidate_of(info_of(written, xdata), path);
            let lines = text::lines(written);
            &&& candidate.depends == listed(lines, "depend"@)
            &&& candidate.provides == listed(lines, "provides"@)
            &&& candidate.conflicts == listed(lines, "conflict"@)
            &&& candidate.replaces == listed(lines, "replaces"@)
            &&& candidate.groups == listed(lines, "group"@)
            &&& forall|i: int| #[trigger]
                first_of(lines, "pkgname"@, i) ==> candidate.entry.name == value_after(
                    lines[i],
                    "pkgname"@,
                )
            &&& forall|i: int| #[trigger]
                first_of(lines, "pkgver"@, i) ==> candidate.entry.version == value_after(
                    lines[i],
                    "pkgver"@,
                )
            &&& forall|i: int| #[trigger]
                first_of(lines, "size"@, i) ==> {
                    let size = text::unsigned(value_after(lines[i], "size"@));
                    candidate.installed_size == if size is Some && 0 <= size->0 <= u64::MAX {
                        size->0
                    } else {
                        0
                    }
                }
            &&& forall|i: int| #[trigger]
                first_of(lines, "arch"@, i) ==> candidate.file_name == candidate.entry.name + "-"@
                    + candidate.entry.version + "-"@ + value_after(lines[i], "arch"@)
                    + ".pkg.tar"@ + compression_in(path)
        }),
{
    reveal_strlit("depend");
    reveal_strlit("provides");
    reveal_strlit("conflict");
    reveal_strlit("replaces");
    reveal_strlit("group");
    reveal_strlit("pkgname");
    reveal_strlit("pkgver");
    reveal_strlit("size");
    reveal_strlit("arch");
    assert(is_key("depend"@) && is_key("provides"@) && is_key("conflict"@));
    assert(is_key("replaces"@) && is_key("group"@) && is_key("pkgname"@));
    assert(is_key("pkgver"@) && is_key("size"@) && is_key("arch"@));
    a_field_is_what_its_lines_say(written, "depend"@);
    a_field_is_what_its_lines_say(written, "provides"@);
    a_field_is_what_its_lines_say(written, "conflict"@);
    a_field_is_what_its_lines_say(written, "replaces"@);
    a_field_is_what_its_lines_say(written, "group"@);
    a_field_is_what_its_lines_say(written, "pkgname"@);
    a_field_is_what_its_lines_say(written, "pkgver"@);
    a_field_is_what_its_lines_say(written, "size"@);
    a_field_is_what_its_lines_say(written, "arch"@);
}

/// The files that are refused are those built for an architecture that is neither `any` nor
/// configured, in order, each with its name and its architecture.
pub proof fn a_foreign_architecture_is_refused(
    targets: Seq<FileTargetView>,
    configured: Seq<Seq<char>>,
)
    ensures
        refused(targets, configured) == picks(
            targets.len() as int,
            |i: int|
                targets[i].architecture != "any"@ && !configured.contains(targets[i].architecture),
            |i: int|
                targets[i].candidate.file_name + " ("@ + targets[i].architecture + ")"@,
        ),
    decreases targets.len(),
{
    if targets.len() > 0 {
        let fewer = targets.drop_last();
        a_foreign_architecture_is_refused(fewer, configured);
        lemma_picks_agree(
            targets.len() - 1,
            |i: int|
                fewer[i].architecture != "any"@ && !configured.contains(fewer[i].architecture),
            |i: int|
                targets[i].architecture != "any"@ && !configured.contains(targets[i].architecture),
            |i: int| fewer[i].candidate.file_name + " ("@ + fewer[i].architecture + ")"@,
            |i: int| targets[i].candidate.file_name + " ("@ + targets[i].architecture + ")"@,
        );
        assert(is_foreign(targets.last(), configured) == (targets[targets.len() - 1].architecture
            != "any"@ && !configured.contains(targets[targets.len() - 1].architecture)));
    }
}

/// Whether target `i` has the file name of target `j`.
pub open spec fn is_repeat(targets: Seq<FileTargetView>, j: int, i: int) -> bool {
    0 <= j < i < targets.len() && targets[j].candidate.file_name == targets[i].candidate.file_name
}

proof fn lemma_last_named(targets: Seq<FileTargetView>, i: int, n: int)
    requires
        0 <= n <= i < targets.len(),
    ensures
        last_named(targets, targets[i].candidate.file_name, n) is Some <==> exists|j: int|
            j < n && #[trigger] is_repeat(targets, j, i),
    decreases n,
{
    if n > 0 {
        lemma_last_named(targets, i, n - 1);
        if targets[n - 1].candidate.file_name == targets[i].candidate.file_name {
            assert(is_repeat(targets, n - 1, i));
        } else if last_named(targets, targets[i].candidate.file_name, n - 1) is Some {
            let j = choose|j: int| j < n - 1 && #[trigger] is_repeat(targets, j, i);
            assert(is_repeat(targets, j, i));
        }
    }
}

/// The first target that repeats an earlier one is the one that is refused, and none is where none
/// does.
pub proof fn the_first_repeat_is_refused(targets: Seq<FileTargetView>, from: int)
    requires
        0 <= from <= targets.len(),
        forall|j: int, i: int| i < from ==> !#[trigger] is_repeat(targets, j, i),
    ensures
        first_repeat(targets, from) is Some ==> exists|j: int| #[trigger]
            is_repeat(targets, j, first_repeat(targets, from)->0),
        first_repeat(targets, from) is Some ==> forall|j: int, k: int|
            k < first_repeat(targets, from)->0 ==> !#[trigger] is_repeat(targets, j, k),
        first_repeat(targets, from) is None ==> forall|j: int, i: int|
            !#[trigger] is_repeat(targets, j, i),
    decreases targets.len() - from,
{
    if from < targets.len() {
        lemma_last_named(targets, from, from);
        if last_named(targets, targets[from].candidate.file_name, from) is None {
            assert forall|j: int, i: int| i < from + 1 implies !#[trigger] is_repeat(
                targets,
                j,
                i,
            ) by {}
            the_first_repeat_is_refused(targets, from + 1);
            if first_repeat(targets, from) is Some {
                let i = first_repeat(targets, from)->0;
                assert(first_repeat(targets, from + 1) == Some(i));
                let j = choose|j: int| #[trigger]
                    is_repeat(targets, j, first_repeat(targets, from + 1)->0);
                assert(is_repeat(targets, j, i));
            }
        } else {
            let j = choose|j: int| j < from && #[trigger] is_repeat(targets, j, from);
            assert(is_repeat(targets, j, from));
            assert(first_repeat(targets, from) == Some(from));
            assert(is_repeat(targets, j, first_repeat(targets, from)->0));
        }
    } else {
        assert forall|j: int, i: int| !#[trigger] is_repeat(targets, j, i) by {
            if is_repeat(targets, j, i) {
                assert(i < from);
            }
        }
    }
}

proof fn lemma_last_slash(s: Seq<char>)
    ensures
        match text::last_of(s, '/', '/') {
            Some(i) => 0 <= i < s.len() && s[i] == '/' && forall|k: int|
                i < k < s.len() ==> #[trigger] s[k] != '/',
            None => forall|k: int| 0 <= k < s.len() ==> #[trigger] s[k] != '/',
        },
    decreases s.len(),
{
    if s.len() > 0 && s.last() != '/' {
        lemma_last_slash(s.drop_last());
        assert forall|k: int| 0 <= k < s.len() - 1 implies #[trigger] s[k]
            == s.drop_last()[k] by {}
    }
}

/// A URL is a server, a slash and what follows the last slash.
pub proof fn a_url_is_split_at_its_last_slash(url: Seq<char>, server: Seq<char>, last: Seq<char>)
    ensures
        split_url(url) == Some((server, last)) <==> url == server.push('/') + last
            && !last.contains('/'),
        split_url(url) is None <==> !url.contains('/'),
{
    lemma_last_slash(url);
    if let Some((before, after)) = split_url(url) {
        let i = text::last_of(url, '/', '/')->0;
        assert(url =~= before.push('/') + after);
        assert(url.contains(url[i]));
        if after.contains('/') {
            let k = choose|k: int| 0 <= k < after.len() && after[k] == '/';
            assert(url[i + 1 + k] == '/');
            assert(false);
        }
        if url == server.push('/') + last && !last.contains('/') {
            let n = server.len() as int;
            assert(url[n] == '/');
            if i > n {
                assert(url[i] == last[i - n - 1]);
                assert(last.contains(last[i - n - 1]));
            }
            assert(i == n);
            assert(before =~= server);
            assert(after =~= last);
        }
    } else {
        if url == server.push('/') + last {
            assert(url[server.len() as int] == '/');
        }
        if url.contains('/') {
            let k = choose|k: int| 0 <= k < url.len() && url[k] == '/';
            assert(url[k] == '/');
        }
    }
}

} // verus!
