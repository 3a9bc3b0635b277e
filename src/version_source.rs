use vstd::prelude::*;

verus! {

/// Versions are the repository's tags.
#[derive(Clone, Copy, Debug, PartialEq, Eq, Structural)]
pub struct TagVersionSource;

/// Versions are the repository's local branches.
#[derive(Clone, Copy, Debug, PartialEq, Eq, Structural)]
pub struct BranchVersionSource;

} // verus!
