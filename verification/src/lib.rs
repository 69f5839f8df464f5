//! A patch engine for installed dependency packages: it records the edits made
//! inside a package directory as a patch file and applies such patches again to a
//! fresh copy of the package.
//!
//! A directory is read into a [`snapshot::Snapshot`]. [`diff::generate`] compares
//! two snapshots and gives a [`change::PatchFile`], which [`format::serialize`]
//! writes to text and [`parse::parse`] reads back. [`apply::apply`] makes the
//! changes of a patch to a snapshot and reports what became of each hunk.
//!
//! What holds of these whatever the trees are is proved in [`laws`],
//! [`closure`], [`roundtrip`], [`wellformed`], [`minimal`] and [`distance`].

pub mod apply;
pub mod bytes;
pub mod change;
pub mod closure;
pub mod diff;
pub mod distance;
pub mod filter;
pub mod format;
pub mod glob;
pub mod hunk;
pub mod laws;
pub mod linediff;
pub mod lock;
pub mod merge;
pub mod minimal;
pub mod package_manager;
pub mod parse;
pub mod path_util;
pub mod registry;
pub mod rename;
pub mod roundtrip;
pub mod snapshot;
pub mod text;
pub mod validate;
pub mod validators;
pub mod wellformed;
