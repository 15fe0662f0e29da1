//! A small Git library: object database codecs, references, the staging
//! index and the derived comparisons (status, diff, log), with every
//! function's behaviour stated as a contract and proved.

pub mod config;
pub mod diff;
pub mod error;
pub mod index;
pub mod infra;
pub mod log;
pub mod objects;
pub mod refs;
pub mod staging;
pub mod status;
pub mod text;
pub mod worktree;

pub use config::Config;
pub use diff::{DiffDelta, DiffStats, DiffStatus, TreeDiff};
pub use error::Error;
pub use index::{Index, IndexEntry};
pub use log::LogOptions;
pub use objects::{Blob, Commit, FileMode, Object, Oid, Signature, Tree, TreeEntry};
pub use refs::{Branch, Head, RemoteBranch, Tag};
pub use status::{FileStatus, StatusEntry};
