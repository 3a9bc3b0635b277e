//! Finds the latest version among tag or branch names by a naming pattern
//! such as `v{major}.{minor}.{patch}`, and computes the next version after a
//! major, minor or patch increment.

pub mod cli;
pub mod digits;
pub mod error;
pub mod laws;
pub mod pattern;
pub mod service;
pub mod version_source;
pub mod versioning;
