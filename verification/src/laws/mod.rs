//! What the operations are for, said of what goes in and what comes out.
//!
//! Each law is stated over the inputs themselves: the paths that a package ships, the lines of a
//! file, the steps of a transaction. How a result is put together is no part of it.

pub mod conflict;
pub mod history;
pub mod hook;
pub mod install;
pub mod journal;
pub mod lists;
pub mod log;
pub mod merge;
pub mod output;
pub mod owner;
pub mod package;
pub mod paths;
pub mod plan;
pub mod record;
pub mod recorder;
pub mod scan;
pub mod source;
pub mod store;
pub mod trigger;
