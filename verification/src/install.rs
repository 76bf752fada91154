//! Installing one package: what becomes of each member of its archive, and what is recorded of it.
//!
//! [`Installer`] is asked before each write and told after it, so that whoever holds the archive
//! stream never has to decide anything. [`install`] is the whole of it over plain values.

use vstd::prelude::*;

use crate::error::Error;
use crate::extract::apply::{diverted, pacnew_path};
use crate::extract::archive::{Member, MemberKind};
use crate::extract::backup;
use crate::extract::backup::{
    BackupOutcome, BackupOutcomeView, Hashed, Resolution, ResolutionView,
};
use crate::extract::decision::{
    decide, disposition, Disposition, DispositionView, EntryContext, EntryContextView, Existing,
    PacnewReason, PacnewReasonView, RefuseReason, SkipReason,
};
use crate::paths;
use crate::table::{Table, TextSet};
use crate::text;

verus! {

broadcast use crate::text::group_lists;

/// Largest metadata member that is held in memory. A larger one is dropped: it is not payload, and
/// the entry is still usable without it.
pub const MAX_METADATA_BYTES: usize = 67_108_864;

/// Which paths a transaction treats specially.
///
/// They arrive as plain answers, not as patterns: this crate's extraction has no opinion on where
/// the policy comes from.
#[derive(Debug)]
pub struct Filters {
    /// Paths never to extract at all.
    pub no_extract: TextSet,
    /// Paths never to overwrite. The packaged version lands as `.pacnew`.
    pub no_upgrade: TextSet,
    /// The hash the currently installed package recorded for a backup path. Empty for a fresh
    /// install.
    pub old_backup_hash: Table<String>,
    /// Paths that the new package declares as backup files.
    pub is_backup: TextSet,
}

impl Default for Filters {
    /// Filters that treat nothing specially: extract everything, back up nothing.
    fn default() -> (r: Self)
        ensures
            r.no_extract@.len() == 0,
            r.no_upgrade@.len() == 0,
            forall|path: Seq<char>| #[trigger] r.old_backup_hash.spec_get(path) is None,
            r.is_backup@.len() == 0,
    {
        Filters {
            no_extract: TextSet::new(),
            no_upgrade: TextSet::new(),
            old_backup_hash: Table::new(),
            is_backup: TextSet::new(),
        }
    }
}

/// What happened to one payload member.
#[derive(Clone, Debug, Eq, PartialEq)]
pub enum Outcome {
    /// Written to its intended path.
    Written,
    /// Skipped, and why.
    Skipped(SkipReason),
    /// A backup file, resolved against the user's copy.
    Backup(BackupOutcome),
}

/// What an [`Outcome`] says.
pub enum OutcomeView {
    /// [`Outcome::Written`].
    Written,
    /// [`Outcome::Skipped`].
    Skipped(SkipReason),
    /// [`Outcome::Backup`].
    Backup(BackupOutcomeView),
}

impl View for Outcome {
    type V = OutcomeView;

    open spec fn view(&self) -> OutcomeView {
        match self {
            Outcome::Written => OutcomeView::Written,
            Outcome::Skipped(reason) => OutcomeView::Skipped(*reason),
            Outcome::Backup(outcome) => OutcomeView::Backup(outcome@),
        }
    }
}

/// The views of a list of outcomes.
pub open spec fn outcome_views(list: Seq<(String, Outcome)>) -> Seq<(Seq<char>, OutcomeView)> {
    Seq::new(list.len(), |i: int| (list[i].0@, list[i].1@))
}

/// The hash that is recorded for a backup file.
#[derive(Clone, Debug, Eq, PartialEq)]
pub struct BackupHash {
    /// The backup file.
    pub path: String,
    /// The hash of what the package shipped.
    pub hash: String,
}

/// The views of a list of recorded hashes.
pub open spec fn hash_views(list: Seq<BackupHash>) -> Seq<(Seq<char>, Seq<char>)> {
    Seq::new(list.len(), |i: int| (list[i].path@, list[i].hash@))
}

/// A list of hashes in the order of their paths, with one more in its place. A path that is there
/// already, however it is spelled, gets the new hash.
pub open spec fn recorded(
    hashes: Seq<(Seq<char>, Seq<char>)>,
    path: Seq<char>,
    hash: Seq<char>,
) -> Seq<(Seq<char>, Seq<char>)>
    decreases hashes.len(),
{
    if hashes.len() == 0 {
        seq![(path, hash)]
    } else {
        let last = hashes.last();
        if paths::key_of(last.0) == paths::key_of(path) {
            hashes.drop_last().push((last.0, hash))
        } else if text::text_lt(paths::key_of(last.0), paths::key_of(path)) {
            hashes.push((path, hash))
        } else {
            recorded(hashes.drop_last(), path, hash).push(last)
        }
    }
}

/// A record of what an installation actually did.
///
/// The local database entry is written from this record. So `owned` is the set of paths the
/// package has on this system. A `NoExtract` path is dropped: the file is genuinely not there. A
/// directory that already existed is kept: it is there, and a file list must not lack the parent
/// of an entry.
#[derive(Debug)]
pub struct Extraction {
    /// Every payload path, in archive order, with what happened to it. A member listed twice
    /// appears twice.
    pub outcomes: Vec<(String, Outcome)>,
    /// Paths that are now owned by the package, in archive order, each once.
    pub owned: Vec<String>,
    /// Paths whose hash could not be computed.
    pub unreadable: Vec<String>,
    /// Metadata members and their contents. They belong in the database entry, not in the root.
    pub metadata: Table<Vec<u8>>,
    /// The `%BACKUP%` hashes to record, in the order of their paths.
    pub backup_hashes: Vec<BackupHash>,
}

impl Extraction {
    /// Nothing done yet.
    pub fn new() -> (r: Self)
        ensures
            outcome_views(r.outcomes@) == Seq::<(Seq<char>, OutcomeView)>::empty(),
            text::texts(r.owned@) == Seq::<Seq<char>>::empty(),
            text::texts(r.unreadable@) == Seq::<Seq<char>>::empty(),
            hash_views(r.backup_hashes@) == Seq::<(Seq<char>, Seq<char>)>::empty(),
            forall|name: Seq<char>| #[trigger] r.metadata.spec_get(name) is None,
    {
        let r = Extraction {
            outcomes: Vec::new(),
            owned: Vec::new(),
            unreadable: Vec::new(),
            metadata: Table::new(),
            backup_hashes: Vec::new(),
        };
        assert(outcome_views(r.outcomes@) =~= Seq::<(Seq<char>, OutcomeView)>::empty());
        assert(text::texts(r.owned@) =~= Seq::<Seq<char>>::empty());
        assert(text::texts(r.unreadable@) =~= Seq::<Seq<char>>::empty());
        assert(hash_views(r.backup_hashes@) =~= Seq::<(Seq<char>, Seq<char>)>::empty());
        r
    }

    /// Records a hash.
    pub fn record_hash(&mut self, path: String, hash: String)
        ensures
            hash_views(final(self).backup_hashes@) == recorded(
                hash_views(old(self).backup_hashes@),
                path@,
                hash@,
            ),
            final(self).outcomes == old(self).outcomes,
            final(self).owned == old(self).owned,
            final(self).unreadable == old(self).unreadable,
            final(self).metadata == old(self).metadata,
    {
        put_hash(&mut self.backup_hashes, path, hash);
    }
}

/// Puts a hash in its place.
fn put_hash(hashes: &mut Vec<BackupHash>, path: String, hash: String)
    ensures
        hash_views(final(hashes)@) == recorded(hash_views(old(hashes)@), path@, hash@),
    decreases old(hashes)@.len(),
{
    let ghost was = hash_views(hashes@);
    match hashes.pop() {
        None => {
            hashes.push(BackupHash { path, hash });
            assert(hash_views(hashes@) =~= seq![(path@, hash@)]);
        },
        Some(last) => {
            let ghost rest = hash_views(hashes@);
            assert(rest =~= was.drop_last());
            assert(was.last() == (last.path@, last.hash@));
            let ours = paths::key(last.path.as_str());
            let theirs = paths::key(path.as_str());
            if text::same(ours.as_str(), theirs.as_str()) {
                hashes.push(BackupHash { path: last.path, hash });
                assert(hash_views(hashes@) =~= rest.push((was.last().0, hash@)));
            } else if text::less(ours.as_str(), theirs.as_str()) {
                let ghost new = (path@, hash@);
                hashes.push(last);
                assert(hash_views(hashes@) =~= was);
                hashes.push(BackupHash { path, hash });
                assert(hash_views(hashes@) =~= was.push(new));
            } else {
                put_hash(hashes, path, hash);
                let ghost inner = hash_views(hashes@);
                hashes.push(last);
                assert(hash_views(hashes@) =~= inner.push(was.last()));
            }
        },
    }
}

// ---------------------------------------------------------------------------------------------
// One member

/// What is decided of a payload member. Every member that is walked is in the package's file list,
/// since that list is the archive's.
pub open spec fn decided(member: Member, existing: Existing, filters: Filters) -> DispositionView {
    disposition(
        EntryContextView {
            entry: member.entry,
            existing,
            in_file_list: true,
            no_extract: filters.no_extract@.contains(member.path@),
            no_upgrade: filters.no_upgrade@.contains(member.path@),
            old_backup_hash: old_hash(filters, member.path@),
            new_is_backup: filters.is_backup@.contains(member.path@),
        },
    )
}

/// The hash that was recorded for a path.
pub open spec fn old_hash(filters: Filters, path: Seq<char>) -> Option<Seq<char>> {
    match filters.old_backup_hash.spec_get(path) {
        Some(hash) => Some(hash@),
        None => None,
    }
}

/// Decides what to do with a payload member.
pub fn plan(member: &Member, existing: Existing, filters: &Filters) -> (r: Disposition)
    ensures
        r@ == decided(*member, existing, *filters),
{
    let path = member.path.as_str();
    let old = match filters.old_backup_hash.get(path) {
        Some(hash) => Some(hash.as_str()),
        None => None,
    };
    let context = EntryContext {
        entry: member.entry,
        existing,
        in_file_list: true,
        no_extract: filters.no_extract.contains(path),
        no_upgrade: filters.no_upgrade.contains(path),
        old_backup_hash: old,
        new_is_backup: filters.is_backup.contains(path),
    };
    decide(&context)
}

/// The directory that must be there before a member is written, where one must be. Parent
/// directories a package did not list must still exist for the write to land.
pub fn parent_to_create(member: &Member, disposition: &Disposition) -> (r: Option<String>)
    ensures
        text::maybe(r) == if disposition@ is Skip || paths::components(
            paths::spec_parent(member.path@),
        ).len() == 0 {
            None::<Seq<char>>
        } else {
            Some(paths::spec_parent(member.path@))
        },
{
    match disposition {
        Disposition::Skip(_) => {
            return None;
        },
        _ => {},
    }
    let all = text::chars(member.path.as_str());
    let parent = paths::parent(all.as_slice());
    let pieces = paths::parts(parent);
    assert(text::pieces(pieces@).len() == pieces@.len());
    if pieces.len() == 0 {
        return None;
    }
    Some(text::text(parent))
}

/// What is at a path, given whether an `lstat` found a directory or anything else there.
pub fn probed(found: Option<bool>) -> (r: Existing)
    ensures
        r == match found {
            None => Existing::Absent,
            Some(true) => Existing::Directory,
            Some(false) => Existing::Other,
        },
{
    match found {
        None => Existing::Absent,
        Some(true) => Existing::Directory,
        Some(false) => Existing::Other,
    }
}

// ---------------------------------------------------------------------------------------------
// The walk

/// Whether a path is owned already, however it is spelled.
pub open spec fn is_claimed(owned: Seq<Seq<char>>, path: Seq<char>) -> bool {
    exists|i: int| 0 <= i < owned.len() && paths::key_of(#[trigger] owned[i]) == paths::key_of(path)
}

/// The owned paths with one more, unless it is owned already.
pub open spec fn claimed(owned: Seq<Seq<char>>, path: Seq<char>) -> Seq<Seq<char>> {
    if is_claimed(owned, path) {
        owned
    } else {
        owned.push(path)
    }
}

/// What a [`PendingBackup`] holds.
pub struct PendingBackupView {
    /// Which of the outcomes is its own.
    pub slot: int,
    /// The path.
    pub path: Seq<char>,
    /// The hash that was recorded for it.
    pub old_hash: Option<Seq<char>>,
    /// Whether the `.pacnew` is new.
    pub is_new: bool,
}

/// What the walk has come to.
pub struct Progress {
    /// Every payload path, with what happened to it. For a backup file whose `.pacnew` is to be
    /// resolved, both are there.
    pub outcomes: Seq<(Seq<char>, OutcomeView)>,
    /// The owned paths.
    pub owned: Seq<Seq<char>>,
    /// The backup files whose `.pacnew` is to be resolved.
    pub backups: Seq<PendingBackupView>,
    /// The backup files with nothing to resolve against: the path, and the file to hash. The two
    /// differ only under `NoUpgrade`, where what the package shipped is the `.pacnew`.
    pub hashes: Seq<(Seq<char>, Seq<char>)>,
}

/// The outcome for a file that was kept beside its `.pacnew`.
pub open spec fn kept_both(path: Seq<char>) -> OutcomeView {
    OutcomeView::Backup(BackupOutcomeView::KeptBoth { pacnew: diverted(path) })
}

/// What a member adds once it was dealt with as `disposition` says.
pub open spec fn after_payload(
    so_far: Progress,
    path: Seq<char>,
    disposition: DispositionView,
    pacnew_is_new: bool,
    old_hash: Option<Seq<char>>,
    is_backup: bool,
) -> Progress {
    let owned = claimed(so_far.owned, path);
    match disposition {
        DispositionView::Extract => Progress {
            outcomes: so_far.outcomes.push((path, OutcomeView::Written)),
            owned,
            hashes: if is_backup {
                so_far.hashes.push((path, path))
            } else {
                so_far.hashes
            },
            ..so_far
        },
        DispositionView::Skip(reason) => Progress {
            outcomes: so_far.outcomes.push((path, OutcomeView::Skipped(reason))),
            owned: if reason == SkipReason::DirectoryExists {
                owned
            } else {
                so_far.owned
            },
            ..so_far
        },
        DispositionView::Refuse(_) => so_far,
        DispositionView::ExtractAsPacnew(PacnewReasonView::Backup { .. }) => Progress {
            outcomes: so_far.outcomes.push((path, kept_both(path))),
            owned,
            backups: so_far.backups.push(
                PendingBackupView {
                    slot: so_far.outcomes.len() as int,
                    path,
                    old_hash,
                    is_new: pacnew_is_new,
                },
            ),
            ..so_far
        },
        DispositionView::ExtractAsPacnew(PacnewReasonView::NoUpgrade) => Progress {
            outcomes: so_far.outcomes.push((path, kept_both(path))),
            owned,
            hashes: if is_backup {
                so_far.hashes.push((path, diverted(path)))
            } else {
                so_far.hashes
            },
            ..so_far
        },
    }
}

/// A backup file whose `.pacnew` is to be resolved.
#[derive(Clone, Debug)]
pub struct PendingBackup {
    /// Which of the outcomes is its own.
    pub slot: usize,
    /// The path.
    pub path: String,
    /// The hash that was recorded for it.
    pub old_hash: Option<String>,
    /// Whether the `.pacnew` is new.
    pub is_new: bool,
}

/// A backup file with nothing to resolve against.
#[derive(Clone, Debug)]
pub struct PendingHash {
    /// The path.
    pub owned: String,
    /// The file to hash.
    pub on_disk: String,
}

/// The views of a list of backup files to resolve.
pub open spec fn backup_views(list: Seq<PendingBackup>) -> Seq<PendingBackupView> {
    Seq::new(list.len(), |i: int| list[i]@)
}

impl View for PendingBackup {
    type V = PendingBackupView;

    open spec fn view(&self) -> PendingBackupView {
        PendingBackupView {
            slot: self.slot as int,
            path: self.path@,
            old_hash: text::maybe(self.old_hash),
            is_new: self.is_new,
        }
    }
}

/// The views of a list of backup files to hash.
pub open spec fn pending_hash_views(list: Seq<PendingHash>) -> Seq<(Seq<char>, Seq<char>)> {
    Seq::new(list.len(), |i: int| (list[i].owned@, list[i].on_disk@))
}

/// An installation under way.
#[derive(Debug)]
pub struct Installer {
    result: Extraction,
    claimed: TextSet,
    backups: Vec<PendingBackup>,
    hashes: Vec<PendingHash>,
}

impl View for Installer {
    type V = Progress;

    closed spec fn view(&self) -> Progress {
        Progress {
            outcomes: outcome_views(self.result.outcomes@),
            owned: text::texts(self.result.owned@),
            backups: backup_views(self.backups@),
            hashes: pending_hash_views(self.hashes@),
        }
    }
}

/// Whether a set holds the keys of the owned paths.
spec fn holds_keys(set: TextSet, owned: Seq<Seq<char>>) -> bool {
    forall|path: Seq<char>| #[trigger]
        is_claimed(owned, path) <==> set@.contains(paths::key_of(path))
}

impl Installer {
    /// No path is owned twice, it is known which are owned, and every backup file to resolve has
    /// an outcome of its own.
    pub closed spec fn wf(self) -> bool {
        &&& holds_keys(self.claimed, text::texts(self.result.owned@))
        &&& forall|i: int|
            0 <= i < self.backups@.len() ==> (#[trigger] self.backups@[i]).slot
                < self.result.outcomes@.len()
    }

    /// The metadata that was captured.
    pub closed spec fn spec_metadata(self, name: Seq<char>) -> Option<Vec<u8>> {
        self.result.metadata.spec_get(name)
    }

    /// The hashes that were recorded.
    pub closed spec fn recorded_hashes(self) -> Seq<(Seq<char>, Seq<char>)> {
        hash_views(self.result.backup_hashes@)
    }

    /// The paths whose hash could not be computed.
    pub closed spec fn unreadable(self) -> Seq<Seq<char>> {
        text::texts(self.result.unreadable@)
    }

    /// What does not change while payload members are met.
    pub open spec fn same_rest(self, other: Self) -> bool {
        &&& self.recorded_hashes() == other.recorded_hashes()
        &&& self.unreadable() == other.unreadable()
    }

    /// Nothing met yet.
    pub fn new() -> (r: Self)
        ensures
            r.wf(),
            r@ == (Progress {
                outcomes: Seq::empty(),
                owned: Seq::empty(),
                backups: Seq::empty(),
                hashes: Seq::empty(),
            }),
            r.recorded_hashes() == Seq::<(Seq<char>, Seq<char>)>::empty(),
            r.unreadable() == Seq::<Seq<char>>::empty(),
            forall|name: Seq<char>| #[trigger] r.spec_metadata(name) is None,
    {
        let result = Extraction::new();
        let claimed = TextSet::new();
        let r = Installer { result, claimed, backups: Vec::new(), hashes: Vec::new() };
        assert(backup_views(r.backups@) =~= Seq::<PendingBackupView>::empty());
        assert(pending_hash_views(r.hashes@) =~= Seq::<(Seq<char>, Seq<char>)>::empty());
        r
    }

    /// Captures a metadata member, given what was read of it, up to one byte past
    /// [`MAX_METADATA_BYTES`]. `None` says that it could not be read. One that is too large is
    /// dropped.
    pub fn metadata(&mut self, name: String, contents: Option<Vec<u8>>)
        requires
            old(self).wf(),
        ensures
            final(self).wf(),
            final(self)@ == old(self)@,
            final(self).same_rest(*old(self)),
            forall|k: Seq<char>|
                #[trigger] final(self).spec_metadata(k) == if k == name@ && (contents matches Some(
                    bytes,
                ) && bytes@.len() <= MAX_METADATA_BYTES) {
                    contents
                } else {
                    old(self).spec_metadata(k)
                },
    {
        if let Some(bytes) = contents {
            if bytes.len() <= MAX_METADATA_BYTES {
                self.result.metadata.insert(name, bytes);
            }
        }
    }

    /// Records that the package owns `path`, ignoring a repeat. An archive may list a member
    /// twice, and a file list must not.
    fn claim(&mut self, path: &str)
        requires
            old(self).wf(),
        ensures
            final(self).wf(),
            final(self)@ == (Progress { owned: claimed(old(self)@.owned, path@), ..old(self)@ }),
            final(self).same_rest(*old(self)),
            forall|k: Seq<char>| #[trigger]
                final(self).spec_metadata(k) == old(self).spec_metadata(k),
    {
        let key = paths::key(path);
        let ghost before = text::texts(self.result.owned@);
        let ghost start = self@;
        assert(is_claimed(before, path@) <==> self.claimed@.contains(key@));
        if self.claimed.contains(key.as_str()) {
            return;
        }
        let ghost keys = self.claimed@;
        self.result.owned.push(path.to_owned());
        self.claimed.insert(key);
        proof {
            let after = text::texts(self.result.owned@);
            assert(after =~= before.push(path@));
            assert forall|p: Seq<char>| #[trigger] is_claimed(after, p) <==> self.claimed@.contains(
                paths::key_of(p),
            ) by {
                lemma_claim_step(before, path@, p);
                assert(is_claimed(before, p) <==> keys.contains(paths::key_of(p)));
            }
        }
        assert(self@.owned =~= start.owned.push(path@));
    }

    /// Takes note of a payload member that was dealt with as [`plan`] said. `pacnew_is_new` says
    /// whether there was no `.pacnew` before one was written.
    pub fn payload(
        &mut self,
        member: &Member,
        disposition: &Disposition,
        pacnew_is_new: bool,
        filters: &Filters,
    )
        requires
            old(self).wf(),
        ensures
            final(self).wf(),
            final(self)@ == after_payload(
                old(self)@,
                member.path@,
                disposition@,
                pacnew_is_new,
                old_hash(*filters, member.path@),
                filters.is_backup@.contains(member.path@),
            ),
            final(self).same_rest(*old(self)),
            forall|k: Seq<char>| #[trigger]
                final(self).spec_metadata(k) == old(self).spec_metadata(k),
    {
        let path = member.path.as_str();
        let is_backup = filters.is_backup.contains(path);
        match disposition {
            Disposition::Extract => {
                self.claim(path);
                self.outcome(path.to_owned(), Outcome::Written);
                if is_backup {
                    self.to_hash(path.to_owned(), path.to_owned());
                }
            },
            Disposition::Skip(reason) => {
                if *reason == SkipReason::DirectoryExists {
                    self.claim(path);
                }
                self.outcome(path.to_owned(), Outcome::Skipped(*reason));
            },
            Disposition::Refuse(_) => {},
            Disposition::ExtractAsPacnew(PacnewReason::Backup { .. }) => {
                self.claim(path);
                let old = match filters.old_backup_hash.get(path) {
                    Some(hash) => Some(hash.clone()),
                    None => None,
                };
                self.to_resolve(path.to_owned(), old, pacnew_is_new);
            },
            Disposition::ExtractAsPacnew(PacnewReason::NoUpgrade) => {
                self.claim(path);
                if is_backup {
                    self.to_hash(path.to_owned(), pacnew_path(path));
                }
                self.outcome(
                    path.to_owned(),
                    Outcome::Backup(BackupOutcome::KeptBoth { pacnew: pacnew_path(path) }),
                );
            },
        }
    }

    /// Adds an outcome.
    fn outcome(&mut self, path: String, outcome: Outcome)
        requires
            old(self).wf(),
        ensures
            final(self).wf(),
            final(self)@ == (Progress {
                outcomes: old(self)@.outcomes.push((path@, outcome@)),
                ..old(self)@
            }),
            final(self).same_rest(*old(self)),
            forall|k: Seq<char>| #[trigger]
                final(self).spec_metadata(k) == old(self).spec_metadata(k),
    {
        let ghost before = self@.outcomes;
        let ghost new = (path@, outcome@);
        self.result.outcomes.push((path, outcome));
        assert(self@.outcomes =~= before.push(new));
    }

    /// Adds a backup file to hash.
    fn to_hash(&mut self, owned: String, on_disk: String)
        requires
            old(self).wf(),
        ensures
            final(self).wf(),
            final(self)@ == (Progress {
                hashes: old(self)@.hashes.push((owned@, on_disk@)),
                ..old(self)@
            }),
            final(self).same_rest(*old(self)),
            forall|k: Seq<char>| #[trigger]
                final(self).spec_metadata(k) == old(self).spec_metadata(k),
    {
        let ghost before = self@.hashes;
        let ghost new = (owned@, on_disk@);
        self.hashes.push(PendingHash { owned, on_disk });
        assert(self@.hashes =~= before.push(new));
    }

    /// Adds a backup file to resolve, and the outcome it has until it is.
    fn to_resolve(&mut self, path: String, old_hash: Option<String>, is_new: bool)
        requires
            old(self).wf(),
        ensures
            final(self).wf(),
            final(self)@ == (Progress {
                outcomes: old(self)@.outcomes.push((path@, kept_both(path@))),
                backups: old(self)@.backups.push(
                    PendingBackupView {
                        slot: old(self)@.outcomes.len() as int,
                        path: path@,
                        old_hash: text::maybe(old_hash),
                        is_new,
                    },
                ),
                ..old(self)@
            }),
            final(self).same_rest(*old(self)),
            forall|k: Seq<char>| #[trigger]
                final(self).spec_metadata(k) == old(self).spec_metadata(k),
    {
        let slot = self.result.outcomes.len();
        let pacnew = pacnew_path(path.as_str());
        let pending = PendingBackup { slot, path: path.clone(), old_hash, is_new };
        let ghost before = self@.backups;
        let ghost new = pending@;
        self.outcome(path, Outcome::Backup(BackupOutcome::KeptBoth { pacnew }));
        let ghost mid = *self;
        self.backups.push(pending);
        proof {
            assert(self@.backups =~= before.push(new));
            assert(self@.outcomes.len() == self.result.outcomes@.len());
            assert forall|i: int| 0 <= i < self.backups@.len() implies (
            #[trigger] self.backups@[i]).slot < self.result.outcomes@.len() by {
                if i < mid.backups@.len() {
                    assert(self.backups@[i] == mid.backups@[i]);
                }
            }
            assert forall|k: Seq<char>| #[trigger] self.spec_metadata(k) == mid.spec_metadata(k) by {}
        }
    }
}

/// What one more owned path claims.
proof fn lemma_claim_step(owned: Seq<Seq<char>>, path: Seq<char>, p: Seq<char>)
    ensures
        is_claimed(owned.push(path), p) <==> is_claimed(owned, p) || paths::key_of(path)
            == paths::key_of(p),
{
    let after = owned.push(path);
    if is_claimed(owned, p) {
        let i = choose|i: int|
            0 <= i < owned.len() && paths::key_of(#[trigger] owned[i]) == paths::key_of(p);
        assert(after[i] == owned[i]);
    }
    if paths::key_of(path) == paths::key_of(p) {
        assert(after[owned.len() as int] == path);
    }
    if is_claimed(after, p) {
        let i = choose|i: int|
            0 <= i < after.len() && paths::key_of(#[trigger] after[i]) == paths::key_of(p);
        if i < owned.len() {
            assert(owned[i] == after[i]);
        }
    }
}

// ---------------------------------------------------------------------------------------------
// After the walk

/// What an installation has recorded.
pub struct Laid {
    /// Every payload path, with what happened to it.
    pub outcomes: Seq<(Seq<char>, OutcomeView)>,
    /// The hashes to record.
    pub hashes: Seq<(Seq<char>, Seq<char>)>,
    /// The paths whose hash could not be computed.
    pub unreadable: Seq<Seq<char>>,
}

/// What resolving a backup file changes: its outcome, and what it adds.
pub open spec fn after_resolution(
    so_far: Laid,
    pending: PendingBackupView,
    resolution: ResolutionView,
) -> Laid {
    Laid {
        outcomes: so_far.outcomes.update(
            pending.slot,
            (pending.path, OutcomeView::Backup(resolution.outcome)),
        ),
        hashes: match resolution.recorded_hash {
            Some(hash) => recorded(so_far.hashes, pending.path, hash),
            None => so_far.hashes,
        },
        unreadable: if resolution.unreadable {
            so_far.unreadable.push(pending.path)
        } else {
            so_far.unreadable
        },
    }
}

/// What a backup file with nothing to resolve against adds: what the package shipped is still
/// recorded, since the next upgrade reads it back as its baseline.
pub open spec fn after_hash(so_far: Laid, owned: Seq<char>, hash: Option<Seq<char>>) -> Laid {
    match hash {
        Some(hash) => Laid { hashes: recorded(so_far.hashes, owned, hash), ..so_far },
        None => Laid { unreadable: so_far.unreadable.push(owned), ..so_far },
    }
}

impl Installer {
    /// What was recorded so far.
    pub open spec fn laid(self) -> Laid {
        Laid {
            outcomes: self@.outcomes,
            hashes: self.recorded_hashes(),
            unreadable: self.unreadable(),
        }
    }

    /// What does not change after the walk.
    pub open spec fn same_walk(self, other: Self) -> bool {
        &&& self@.owned == other@.owned
        &&& self@.backups == other@.backups
        &&& self@.hashes == other@.hashes
        &&& forall|k: Seq<char>| #[trigger] self.spec_metadata(k) == other.spec_metadata(k)
    }

    /// The backup files whose `.pacnew` is to be resolved, once the walk is over.
    pub fn backups(&self) -> (r: &Vec<PendingBackup>)
        ensures
            backup_views(r@) == self@.backups,
    {
        &self.backups
    }

    /// The backup files that are to be hashed, once those are resolved.
    pub fn hashes(&self) -> (r: &Vec<PendingHash>)
        ensures
            pending_hash_views(r@) == self@.hashes,
    {
        &self.hashes
    }

    /// Takes note of how the backup file `at` of [`Self::backups`] was resolved.
    pub fn resolved(&mut self, at: usize, resolution: Resolution)
        requires
            old(self).wf(),
            at < old(self)@.backups.len(),
        ensures
            final(self).wf(),
            final(self).laid() == after_resolution(
                old(self).laid(),
                old(self)@.backups[at as int],
                resolution@,
            ),
            final(self).same_walk(*old(self)),
    {
        let ghost start = self.laid();
        let ghost pending = self@.backups[at as int];
        assert(self.backups@[at as int].slot < self.result.outcomes@.len());
        let path = self.backups[at].path.clone();
        let slot = self.backups[at].slot;
        if resolution.unreadable {
            self.result.unreadable.push(path.clone());
            assert(self.unreadable() =~= start.unreadable.push(path@));
        }
        if let Some(hash) = resolution.recorded_hash {
            self.result.record_hash(path.clone(), hash);
        }
        let ghost new = (path@, OutcomeView::Backup(resolution.outcome@));
        self.result.outcomes.set(slot, (path, Outcome::Backup(resolution.outcome)));
        assert(self@.outcomes =~= start.outcomes.update(slot as int, new));
    }

    /// Takes note of a backup file that was hashed. `None` says that it could not be.
    pub fn hashed(&mut self, owned: String, hash: Option<String>)
        requires
            old(self).wf(),
        ensures
            final(self).wf(),
            final(self).laid() == after_hash(old(self).laid(), owned@, text::maybe(hash)),
            final(self).same_walk(*old(self)),
    {
        let ghost start = self.laid();
        match hash {
            Some(hash) => {
                self.result.record_hash(owned, hash);
            },
            None => {
                self.result.unreadable.push(owned);
                assert(self.unreadable() =~= start.unreadable.push(owned@));
            },
        }
    }

    /// The record of the installation.
    pub fn finish(self) -> (r: Extraction)
        ensures
            outcome_views(r.outcomes@) == self@.outcomes,
            text::texts(r.owned@) == self@.owned,
            hash_views(r.backup_hashes@) == self.recorded_hashes(),
            text::texts(r.unreadable@) == self.unreadable(),
            forall|name: Seq<char>| #[trigger]
                r.metadata.spec_get(name) == self.spec_metadata(name),
    {
        self.result
    }
}

// ---------------------------------------------------------------------------------------------
// The whole

/// One member of an archive, with what was found where it goes.
#[derive(Debug)]
pub struct Visit {
    /// The member.
    pub member: Member,
    /// What is at its path.
    pub existing: Existing,
    /// Whether there is no `.pacnew` beside its path.
    pub pacnew_is_new: bool,
    /// What was read of it, where it is metadata.
    pub contents: Option<Vec<u8>>,
}

/// What the first members of an archive come to. `Err` is the path of the first that is refused,
/// which stops the installation.
pub open spec fn walked(visits: Seq<Visit>, filters: Filters) -> Result<Progress, Seq<char>>
    decreases visits.len(),
{
    if visits.len() == 0 {
        Ok(
            Progress {
                outcomes: Seq::empty(),
                owned: Seq::empty(),
                backups: Seq::empty(),
                hashes: Seq::empty(),
            },
        )
    } else {
        let visit = visits.last();
        let path = visit.member.path@;
        match walked(visits.drop_last(), filters) {
            Err(path) => Err(path),
            Ok(so_far) => if visit.member.kind == MemberKind::Metadata {
                Ok(so_far)
            } else {
                let decision = decided(visit.member, visit.existing, filters);
                if decision is Refuse {
                    Err(path)
                } else {
                    Ok(
                        after_payload(
                            so_far,
                            path,
                            decision,
                            visit.pacnew_is_new,
                            old_hash(filters, path),
                            filters.is_backup@.contains(path),
                        ),
                    )
                }
            },
        }
    }
}

/// The metadata that the first members of an archive hold under a name: the last one wins.
pub open spec fn metadata_of(visits: Seq<Visit>, name: Seq<char>) -> Option<Vec<u8>>
    decreases visits.len(),
{
    if visits.len() == 0 {
        None
    } else {
        let visit = visits.last();
        if visit.member.kind == MemberKind::Metadata && visit.member.path@ == name && (
        visit.contents matches Some(bytes) && bytes@.len() <= MAX_METADATA_BYTES) {
            visit.contents
        } else {
            metadata_of(visits.drop_last(), name)
        }
    }
}

/// What hashing a backup file and its `.pacnew` gave, right before the two are resolved.
#[derive(Debug)]
pub struct Compared {
    /// The file that is there.
    pub local: Hashed,
    /// Its `.pacnew`.
    pub packaged: Hashed,
}

/// What hashing gave, once the walk was over.
#[derive(Debug)]
pub struct Answers {
    /// For each backup file to resolve, in order. One is asked about after the one before it was
    /// resolved: a member that is listed twice finds what the first left.
    pub backups: Vec<Compared>,
    /// For each backup file to hash, in order.
    pub hashes: Vec<Hashed>,
}

/// What hashing the `k`th backup file to resolve, and its `.pacnew`, gave. Without an answer they
/// are missing.
pub open spec fn compared_at(answers: Seq<Compared>, k: int) -> (Hashed, Hashed) {
    if k < answers.len() {
        (answers[k].local, answers[k].packaged)
    } else {
        (Hashed::Missing, Hashed::Missing)
    }
}

/// What hashing the `k`th backup file to hash says. Without an answer it is missing.
pub open spec fn hash_at(answers: Seq<Hashed>, k: int) -> Option<Seq<char>> {
    if k < answers.len() {
        backup::hash_of(answers[k])
    } else {
        None
    }
}

/// How the `k`th backup file is resolved.
pub open spec fn resolution_of(
    pending: PendingBackupView,
    answers: Seq<Compared>,
    k: int,
) -> ResolutionView {
    let (local, packaged) = compared_at(answers, k);
    backup::resolution(
        pending.path,
        local,
        packaged,
        pending.old_hash,
        pending.is_new,
    )
}

/// What resolving the first backup files comes to.
pub open spec fn after_backups(
    so_far: Laid,
    backups: Seq<PendingBackupView>,
    answers: Seq<Compared>,
) -> Laid
    decreases backups.len(),
{
    if backups.len() == 0 {
        so_far
    } else {
        after_resolution(
            after_backups(so_far, backups.drop_last(), answers),
            backups.last(),
            resolution_of(backups.last(), answers, backups.len() - 1),
        )
    }
}

/// What hashing the first backup files adds.
pub open spec fn after_hashes(
    so_far: Laid,
    hashes: Seq<(Seq<char>, Seq<char>)>,
    answers: Seq<Hashed>,
) -> Laid
    decreases hashes.len(),
{
    if hashes.len() == 0 {
        so_far
    } else {
        after_hash(
            after_hashes(so_far, hashes.drop_last(), answers),
            hashes.last().0,
            hash_at(answers, hashes.len() - 1),
        )
    }
}

/// Everything an installation records, given what its walk came to.
pub open spec fn laid_down(walk: Progress, answers: Answers) -> Laid {
    after_hashes(
        after_backups(
            Laid { outcomes: walk.outcomes, hashes: Seq::empty(), unreadable: Seq::empty() },
            walk.backups,
            answers.backups@,
        ),
        walk.hashes,
        answers.hashes@,
    )
}

/// A copy of what hashing a file gave.
fn copied(hashed: &Hashed) -> (r: Hashed)
    ensures
        backup::hash_of(r) == backup::hash_of(*hashed),
        r is Unreadable <==> hashed is Unreadable,
{
    match hashed {
        Hashed::Known(hash) => Hashed::Known(hash.clone()),
        Hashed::Missing => Hashed::Missing,
        Hashed::Unreadable => Hashed::Unreadable,
    }
}

/// Meets one member.
fn meet(installer: &mut Installer, visit: Visit, filters: &Filters) -> (r: Result<(), Error>)
    requires
        old(installer).wf(),
    ensures
        final(installer).wf(),
        final(installer).same_rest(*old(installer)),
        forall|k: Seq<char>|
            #[trigger] final(installer).spec_metadata(k) == if visit.member.kind
                == MemberKind::Metadata && visit.member.path@ == k && (visit.contents matches Some(
                bytes,
            ) && bytes@.len() <= MAX_METADATA_BYTES) {
                visit.contents
            } else {
                old(installer).spec_metadata(k)
            },
        match r {
            Ok(()) => final(installer)@ == if visit.member.kind == MemberKind::Metadata {
                old(installer)@
            } else {
                after_payload(
                    old(installer)@,
                    visit.member.path@,
                    decided(visit.member, visit.existing, *filters),
                    visit.pacnew_is_new,
                    old_hash(*filters, visit.member.path@),
                    filters.is_backup@.contains(visit.member.path@),
                )
            },
            Err(error) => is_refusal(error, visit.member.path@),
        },
        r is Err <==> visit.member.kind == MemberKind::Payload && decided(
            visit.member,
            visit.existing,
            *filters,
        ) is Refuse,
{
    if visit.member.kind == MemberKind::Metadata {
        installer.metadata(visit.member.path, visit.contents);
        return Ok(());
    }
    let disposition = plan(&visit.member, visit.existing, filters);
    match disposition {
        Disposition::Refuse(reason) => {
            return Err(Error::ExtractionRefused { path: visit.member.path, reason });
        },
        _ => {},
    }
    installer.payload(&visit.member, &disposition, visit.pacnew_is_new, filters);
    Ok(())
}

/// The error for a member that is refused.
pub open spec fn is_refusal(error: Error, path: Seq<char>) -> bool {
    error matches Error::ExtractionRefused { path: at, reason } && at@ == path && reason
        == RefuseReason::DirectoryInTheWay
}

/// Installs a package: what the walk over its members comes to, and what is recorded once the
/// backup files among them are resolved.
///
/// `answers` holds what hashing the backup files says after the walk. A refusal, which is a
/// directory in the way of a file, stops the installation.
pub fn install(visits: Vec<Visit>, filters: &Filters, answers: &Answers) -> (r: Result<
    Extraction,
    Error,
>)
    ensures
        match r {
            Ok(extraction) => {
                &&& walked(visits@, *filters) is Ok
                &&& text::texts(extraction.owned@) == walked(visits@, *filters)->Ok_0.owned
                &&& laid_down(walked(visits@, *filters)->Ok_0, *answers) == (Laid {
                    outcomes: outcome_views(extraction.outcomes@),
                    hashes: hash_views(extraction.backup_hashes@),
                    unreadable: text::texts(extraction.unreadable@),
                })
                &&& forall|name: Seq<char>| #[trigger]
                    extraction.metadata.spec_get(name) == metadata_of(visits@, name)
            },
            Err(error) => walked(visits@, *filters) is Err && is_refusal(
                error,
                walked(visits@, *filters)->Err_0,
            ),
        },
{
    let mut installer = Installer::new();
    let ghost all = visits@;
    let ghost mut i: int = 0;
    assert(all.take(0) =~= Seq::<Visit>::empty());
    for next in it: visits
        invariant
            it.seq() == all,
            it.index() == i,
            installer.wf(),
            walked(all.take(i), *filters) == Ok::<Progress, Seq<char>>(installer@),
            installer.recorded_hashes() == Seq::<(Seq<char>, Seq<char>)>::empty(),
            installer.unreadable() == Seq::<Seq<char>>::empty(),
            forall|name: Seq<char>| #[trigger]
                installer.spec_metadata(name) == metadata_of(all.take(i), name),
    {
        let ghost so_far = all.take(i + 1);
        proof {
            assert(next == all[i]);
            assert(so_far.drop_last() =~= all.take(i));
            assert(so_far.last() == next);
        }
        let ghost before = installer;
        match meet(&mut installer, next, filters) {
            Ok(()) => {},
            Err(error) => {
                proof {
                    lemma_stopped(all, *filters, i + 1);
                }
                return Err(error);
            },
        }
        proof {
            assert forall|name: Seq<char>| #[trigger]
                installer.spec_metadata(name) == metadata_of(so_far, name) by {
                assert(before.spec_metadata(name) == metadata_of(all.take(i), name));
            }
            i = i + 1;
        }
    }
    assert(all.take(all.len() as int) =~= all);
    let ghost walk = installer@;
    let ghost start = installer.laid();
    let backups = installer.backups().len();
    let hashes = copied_hashes(installer.hashes());
    let ghost after_walk = installer;
    let mut j: usize = 0;
    assert(walk.backups.take(0) =~= Seq::<PendingBackupView>::empty());
    while j < backups
        invariant
            j <= backups,
            backups == walk.backups.len(),
            installer.wf(),
            installer@.backups == walk.backups,
            installer.same_walk(after_walk),
            installer.laid() == after_backups(
                start,
                walk.backups.take(j as int),
                answers.backups@,
            ),
        decreases backups - j,
    {
        let resolution = {
            let pending = &installer.backups()[j];
            assert(backup_views(installer.backups@)[j as int] == pending@);
            let original = match &pending.old_hash {
                Some(hash) => Some(hash.as_str()),
                None => None,
            };
            let (local, packaged) = if j < answers.backups.len() {
                (copied(&answers.backups[j].local), copied(&answers.backups[j].packaged))
            } else {
                (Hashed::Missing, Hashed::Missing)
            };
            backup::resolve(pending.path.as_str(), local, packaged, original, pending.is_new)
        };
        proof {
            let so_far = walk.backups.take(j + 1);
            assert(so_far.drop_last() =~= walk.backups.take(j as int));
            assert(so_far.last() == walk.backups[j as int]);
        }
        installer.resolved(j, resolution);
        j += 1;
    }
    assert(walk.backups.take(j as int) =~= walk.backups);
    let ghost middle = installer.laid();
    let mut k: usize = 0;
    assert(walk.hashes.take(0) =~= Seq::<(Seq<char>, Seq<char>)>::empty());
    while k < hashes.len()
        invariant
            k <= hashes.len(),
            installer.wf(),
            pending_hash_views(hashes@) == walk.hashes,
            installer.same_walk(after_walk),
            installer.laid() == after_hashes(
                middle,
                walk.hashes.take(k as int),
                answers.hashes@,
            ),
        decreases hashes.len() - k,
    {
        let pending = &hashes[k];
        proof {
            let so_far = walk.hashes.take(k + 1);
            assert(so_far.drop_last() =~= walk.hashes.take(k as int));
            assert(so_far.last() == pending_hash_views(hashes@)[k as int]);
        }
        let hash = if k < answers.hashes.len() {
            match &answers.hashes[k] {
                Hashed::Known(hash) => Some(hash.clone()),
                _ => None,
            }
        } else {
            None
        };
        installer.hashed(pending.owned.clone(), hash);
        k += 1;
    }
    assert(walk.hashes.take(k as int) =~= walk.hashes);
    Ok(installer.finish())
}

/// A copy of a list of backup files to hash.
fn copied_hashes(list: &Vec<PendingHash>) -> (r: Vec<PendingHash>)
    ensures
        pending_hash_views(r@) == pending_hash_views(list@),
{
    let mut out: Vec<PendingHash> = Vec::new();
    let mut i: usize = 0;
    while i < list.len()
        invariant
            i <= list.len(),
            pending_hash_views(out@) == pending_hash_views(list@).take(i as int),
        decreases list.len() - i,
    {
        let ghost before = pending_hash_views(out@);
        let copy = PendingHash {
            owned: list[i].owned.clone(),
            on_disk: list[i].on_disk.clone(),
        };
        out.push(copy);
        proof {
            let all = pending_hash_views(list@);
            assert(pending_hash_views(out@) =~= before.push(all[i as int]));
            assert(all.take(i + 1) =~= all.take(i as int).push(all[i as int]));
        }
        i += 1;
    }
    assert(pending_hash_views(list@).take(i as int) =~= pending_hash_views(list@));
    out
}

/// Nothing after a refused member matters.
proof fn lemma_stopped(visits: Seq<Visit>, filters: Filters, n: int)
    requires
        0 <= n <= visits.len(),
        walked(visits.take(n), filters) is Err,
    ensures
        walked(visits, filters) == walked(visits.take(n), filters),
    decreases visits.len() - n,
{
    if n == visits.len() {
        assert(visits.take(n) =~= visits);
    } else {
        assert(visits.take(n + 1).drop_last() =~= visits.take(n));
        lemma_stopped(visits, filters, n + 1);
    }
}

// ---------------------------------------------------------------------------------------------
// Laws

/// No path is listed twice, however it is spelled.
pub open spec fn distinct(owned: Seq<Seq<char>>) -> bool {
    forall|i: int, j: int|
        0 <= i < j < owned.len() ==> paths::key_of(#[trigger] owned[i]) != paths::key_of(
            #[trigger] owned[j],
        )
}

/// An archive may list a member twice; the package owns it once.
pub proof fn a_path_is_owned_once(visits: Seq<Visit>, filters: Filters)
    ensures
        walked(visits, filters) matches Ok(walk) ==> distinct(walk.owned),
    decreases visits.len(),
{
    if visits.len() > 0 {
        a_path_is_owned_once(visits.drop_last(), filters);
        if let Ok(walk) = walked(visits, filters) {
            let before = walked(visits.drop_last(), filters)->Ok_0;
            let path = visits.last().member.path@;
            assert(walk.owned == before.owned || walk.owned == claimed(before.owned, path));
            if !is_claimed(before.owned, path) {
                let after = before.owned.push(path);
                assert forall|i: int, j: int| 0 <= i < j < after.len() implies paths::key_of(
                    #[trigger] after[i],
                ) != paths::key_of(#[trigger] after[j]) by {
                    assert(after[i] == before.owned[i]);
                    if j < before.owned.len() {
                        assert(after[j] == before.owned[j]);
                    }
                }
            }
        }
    }
}

/// A path that `NoExtract` keeps out is not owned for it, and one that was written, diverted or was
/// a directory already is.
pub proof fn what_is_there_is_owned(
    so_far: Progress,
    path: Seq<char>,
    decision: DispositionView,
    pacnew_is_new: bool,
    old: Option<Seq<char>>,
    is_backup: bool,
)
    ensures
        ({
            let after = after_payload(so_far, path, decision, pacnew_is_new, old, is_backup);
            match decision {
                DispositionView::Skip(SkipReason::NoExtract) => after.owned == so_far.owned,
                DispositionView::Skip(SkipReason::NotInFileList) => after.owned == so_far.owned,
                DispositionView::Refuse(_) => after.owned == so_far.owned,
                _ => is_claimed(after.owned, path),
            }
        }),
{
    let owned = claimed(so_far.owned, path);
    if !is_claimed(so_far.owned, path) {
        assert(owned[so_far.owned.len() as int] == path);
        assert(is_claimed(owned, path));
    }
}

/// A file that `NoUpgrade` protects is never resolved against its `.pacnew`, so it is never
/// replaced.
pub proof fn a_protected_file_is_never_resolved(
    so_far: Progress,
    path: Seq<char>,
    pacnew_is_new: bool,
    old: Option<Seq<char>>,
    is_backup: bool,
)
    ensures
        after_payload(
            so_far,
            path,
            DispositionView::ExtractAsPacnew(PacnewReasonView::NoUpgrade),
            pacnew_is_new,
            old,
            is_backup,
        ).backups == so_far.backups,
{
}

/// A backup file that is written, or kept from being overwritten, has the hash of what the package
/// shipped recorded: it is to be hashed or resolved.
pub proof fn every_backup_file_is_recorded(
    so_far: Progress,
    path: Seq<char>,
    decision: DispositionView,
    pacnew_is_new: bool,
    old: Option<Seq<char>>,
)
    requires
        decision is Extract || decision is ExtractAsPacnew,
    ensures
        ({
            let after = after_payload(so_far, path, decision, pacnew_is_new, old, true);
            after.hashes.len() + after.backups.len() == so_far.hashes.len() + so_far.backups.len()
                + 1
        }),
{
}

/// The payload paths of an archive, in its order.
pub open spec fn payload_paths(visits: Seq<Visit>) -> Seq<Seq<char>>
    decreases visits.len(),
{
    if visits.len() == 0 {
        Seq::empty()
    } else if visits.last().member.kind == MemberKind::Metadata {
        payload_paths(visits.drop_last())
    } else {
        payload_paths(visits.drop_last()).push(visits.last().member.path@)
    }
}

/// The paths of outcomes.
pub open spec fn paths_in(outcomes: Seq<(Seq<char>, OutcomeView)>) -> Seq<Seq<char>> {
    Seq::new(outcomes.len(), |i: int| outcomes[i].0)
}

/// Whether each backup file to resolve has an outcome of its own, under its path.
pub open spec fn slotted(walk: Progress) -> bool {
    &&& forall|k: int|
        0 <= k < walk.backups.len() ==> 0 <= (#[trigger] walk.backups[k]).slot
            < walk.outcomes.len() && walk.outcomes[walk.backups[k].slot].0 == walk.backups[k].path
    &&& forall|a: int, b: int|
        0 <= a < b < walk.backups.len() ==> (#[trigger] walk.backups[a]).slot < (
        #[trigger] walk.backups[b]).slot
}

/// A walk has one outcome for each payload member, in archive order.
proof fn lemma_walk_outcomes(visits: Seq<Visit>, filters: Filters)
    ensures
        walked(visits, filters) matches Ok(walk) ==> paths_in(walk.outcomes) == payload_paths(
            visits,
        ) && slotted(walk),
    decreases visits.len(),
{
    if visits.len() > 0 {
        lemma_walk_outcomes(visits.drop_last(), filters);
        if let Ok(walk) = walked(visits, filters) {
            let before = walked(visits.drop_last(), filters)->Ok_0;
            assert(paths_in(walk.outcomes) =~= payload_paths(visits));
            assert forall|k: int| 0 <= k < walk.backups.len() implies 0 <= (
            #[trigger] walk.backups[k]).slot < walk.outcomes.len()
                && walk.outcomes[walk.backups[k].slot].0 == walk.backups[k].path by {
                if k < before.backups.len() {
                    assert(walk.backups[k] == before.backups[k]);
                }
            }
            assert forall|a: int, b: int| 0 <= a < b < walk.backups.len() implies (
            #[trigger] walk.backups[a]).slot < (#[trigger] walk.backups[b]).slot by {
                assert(walk.backups[a] == before.backups[a]);
                if b < before.backups.len() {
                    assert(walk.backups[b] == before.backups[b]);
                }
            }
        }
    } else {
        assert(paths_in(walked(visits, filters)->Ok_0.outcomes) =~= payload_paths(visits));
    }
}

/// Resolving the first `n` backup files changes their outcomes and no others.
proof fn lemma_resolved_outcomes(walk: Progress, start: Laid, answers: Seq<Compared>, n: int)
    requires
        slotted(walk),
        start.outcomes == walk.outcomes,
        0 <= n <= walk.backups.len(),
    ensures
        ({
            let after = after_backups(start, walk.backups.take(n), answers).outcomes;
            &&& paths_in(after) == paths_in(walk.outcomes)
            &&& forall|k: int|
                0 <= k < n ==> after[(#[trigger] walk.backups[k]).slot].1 == OutcomeView::Backup(
                    resolution_of(walk.backups[k], answers, k).outcome,
                )
            &&& forall|i: int|
                0 <= i < after.len() && (forall|k: int|
                    0 <= k < n ==> (#[trigger] walk.backups[k]).slot != i) ==> after[i]
                    == #[trigger] walk.outcomes[i]
        }),
    decreases n,
{
    let some = walk.backups.take(n);
    let after = after_backups(start, some, answers).outcomes;
    if n > 0 {
        lemma_resolved_outcomes(walk, start, answers, n - 1);
        assert(some.drop_last() =~= walk.backups.take(n - 1));
        assert(some.last() == walk.backups[n - 1]);
        let before = after_backups(start, some.drop_last(), answers).outcomes;
        assert(before.len() == paths_in(before).len());
        assert(walk.outcomes.len() == paths_in(walk.outcomes).len());
        assert(paths_in(after) =~= paths_in(walk.outcomes)) by {
            assert forall|i: int| 0 <= i < after.len() implies paths_in(after)[i] == paths_in(
                walk.outcomes,
            )[i] by {
                assert(paths_in(before)[i] == paths_in(walk.outcomes)[i]);
            }
        }
        assert forall|i: int|
            0 <= i < after.len() && (forall|k: int|
                0 <= k < n ==> (#[trigger] walk.backups[k]).slot != i) implies after[i]
            == #[trigger] walk.outcomes[i] by {
            assert(walk.backups[n - 1].slot != i);
        }
    } else {
        assert(some =~= Seq::<PendingBackupView>::empty());
    }
}

/// Hashing changes no outcome.
proof fn lemma_hashes_keep_outcomes(
    so_far: Laid,
    hashes: Seq<(Seq<char>, Seq<char>)>,
    answers: Seq<Hashed>,
)
    ensures
        after_hashes(so_far, hashes, answers).outcomes == so_far.outcomes,
    decreases hashes.len(),
{
    if hashes.len() > 0 {
        lemma_hashes_keep_outcomes(so_far, hashes.drop_last(), answers);
    }
}

/// Every payload member has one outcome, in archive order: that of the walk, and for a backup file
/// whose `.pacnew` was resolved, what that came to.
pub proof fn outcomes_are_in_archive_order(visits: Seq<Visit>, filters: Filters, answers: Answers)
    ensures
        walked(visits, filters) matches Ok(walk) ==> {
            let outcomes = laid_down(walk, answers).outcomes;
            &&& paths_in(outcomes) == payload_paths(visits)
            &&& forall|k: int|
                0 <= k < walk.backups.len() ==> outcomes[(#[trigger] walk.backups[k]).slot]
                    == (walk.backups[k].path, OutcomeView::Backup(
                    resolution_of(walk.backups[k], answers.backups@, k).outcome,
                ))
            &&& forall|i: int|
                0 <= i < outcomes.len() && (forall|k: int|
                    0 <= k < walk.backups.len() ==> (#[trigger] walk.backups[k]).slot != i)
                    ==> outcomes[i] == #[trigger] walk.outcomes[i]
        },
{
    lemma_walk_outcomes(visits, filters);
    if let Ok(walk) = walked(visits, filters) {
        let start = Laid {
            outcomes: walk.outcomes,
            hashes: Seq::empty(),
            unreadable: Seq::empty(),
        };
        lemma_resolved_outcomes(walk, start, answers.backups@, walk.backups.len() as int);
        assert(walk.backups.take(walk.backups.len() as int) =~= walk.backups);
        let middle = after_backups(start, walk.backups, answers.backups@);
        lemma_hashes_keep_outcomes(middle, walk.hashes, answers.hashes@);
        let outcomes = laid_down(walk, answers).outcomes;
        assert(outcomes == middle.outcomes);
        assert(outcomes.len() == paths_in(outcomes).len());
        assert(walk.outcomes.len() == paths_in(walk.outcomes).len());
        assert forall|k: int| 0 <= k < walk.backups.len() implies outcomes[(
        #[trigger] walk.backups[k]).slot] == (walk.backups[k].path, OutcomeView::Backup(
            resolution_of(walk.backups[k], answers.backups@, k).outcome,
        )) by {
            let slot = walk.backups[k].slot;
            assert(paths_in(outcomes)[slot] == paths_in(walk.outcomes)[slot]);
        }
    }
}

/// Whether two sets of filters say the same of a path.
pub open spec fn filters_agree(a: Filters, b: Filters, path: Seq<char>) -> bool {
    &&& a.no_extract@.contains(path) == b.no_extract@.contains(path)
    &&& a.no_upgrade@.contains(path) == b.no_upgrade@.contains(path)
    &&& a.is_backup@.contains(path) == b.is_backup@.contains(path)
    &&& old_hash(a, path) == old_hash(b, path)
}

/// What filters say matters only for the members of the archive: a walk comes to the same for every
/// filters that agree on those, however they were come by.
pub proof fn only_members_are_asked_about(visits: Seq<Visit>, a: Filters, b: Filters)
    requires
        forall|i: int|
            0 <= i < visits.len() ==> filters_agree(a, b, (#[trigger] visits[i]).member.path@),
    ensures
        walked(visits, a) == walked(visits, b),
    decreases visits.len(),
{
    if visits.len() > 0 {
        let fewer = visits.drop_last();
        assert forall|i: int| 0 <= i < fewer.len() implies filters_agree(
            a,
            b,
            (#[trigger] fewer[i]).member.path@,
        ) by {
            assert(fewer[i] == visits[i]);
        }
        only_members_are_asked_about(fewer, a, b);
        assert(filters_agree(a, b, visits[visits.len() - 1].member.path@));
    }
}

} // verus!
