//! Verified core of a directory-tree synchronizer.
//!
//! The crate models a filesystem subtree as plain data ([`tree::FsTree`]) and
//! verifies the decision logic of a backup tool over that model: which paths
//! an exclusion list prunes, how many leaf entries a progress indicator must
//! expect, and, for every entry of a source tree, whether the engine creates
//! a directory, copies a file, or skips it under the overwrite and staleness
//! rules. The functions here are pure: an unverified shell reads the real
//! filesystem into the model, runs the engine, and replays the returned
//! action plan against the disk.

pub mod backup;
pub mod commands;
pub mod config;
pub mod exclude;
pub mod folders;
pub mod laws;
pub mod tree;
pub mod utils;
