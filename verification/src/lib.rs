//! Finds build-artifact and dependency directories beneath a root path,
//! based on an editable list of exact directory-name patterns, and helps
//! delete them: the scan prunes traversal beneath every match, and a batch
//! removal partitions its inputs into the paths that were removed and the
//! paths that failed.

pub mod commands;
pub mod config;
pub mod filters;
pub mod folderscan;
