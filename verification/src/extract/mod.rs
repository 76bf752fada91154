//! Extraction: what a package archive holds, and what becomes of each of its members.

pub mod apply;
pub mod archive;
pub mod backup;
pub mod decision;

pub use apply::Ownership;
pub use archive::PackageLimits;
pub use decision::{BackupAction, Disposition, EntryContext};
