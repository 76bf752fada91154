//! Package transactions: the decisions a commit engine makes, apart from the system it makes them
//! about.
//!
//! A transaction lays package archives down in an installation root, records them in a database,
//! runs the hooks they set off, and keeps a history of it all. Everything here is a function of
//! plain values: whoever holds the files, the processes and the network asks what to do, does it,
//! and says what came of it.
//!
//! * [`plan`] and [`file_target`] say what a transaction is made of.
//! * [`conflict`] and [`owner`] say which files it may write.
//! * [`extract`] and [`install`] say what becomes of each member of an archive, and [`hash`]
//!   whether a file is still what it was.
//! * [`pkginfo`], [`package`] and [`record`] read what a package says of itself and write its
//!   database entry.
//! * [`hook`] and [`exec`] say which commands run, and what their outcome means.
//! * [`atomic`] replaces a file, [`journal`] says what an interrupted transaction left undone, and [`history`] what was done.
//! * [`merge`] finds the configuration files that wait for the user.
//!
//! [`laws`] states what each of these is for, from what goes in and what comes out.
//!
//! [`text`], [`bytes`], [`paths`], [`pattern`], [`order`] and [`table`] are what the rest is made of.

pub mod atomic;
pub mod bytes;
pub mod conflict;
pub mod error;
pub mod exec;
pub mod extract;
pub mod file_target;
pub mod hash;
pub mod history;
pub mod hook;
pub mod install;
pub mod journal;
pub mod laws;
pub mod merge;
pub mod order;
pub mod owner;
pub mod package;
pub mod paths;
pub mod pattern;
pub mod pkginfo;
pub mod plan;
pub mod progress;
pub mod record;
pub mod table;
pub mod text;

pub use conflict::filelist::FileList;
pub use conflict::{Blocker, Check, FileConflict};
pub use error::{Error, Result};
pub use extract::{BackupAction, Disposition, EntryContext};
pub use file_target::FileTarget;
pub use history::time_fmt::LocalOffset;
pub use history::{Action, Recording};
pub use install::{install, Extraction, Filters};
pub use plan::{
    download_only, download_targets, install_steps, verification_from, DownloadOnlyOutcome, Step,
};
