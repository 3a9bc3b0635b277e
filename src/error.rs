use vstd::prelude::*;

use crate::pattern::Field;

verus! {

/// What can go wrong when reading versions or computing the next one.
#[derive(Clone, Debug, PartialEq, Eq)]
pub enum VersionError {
    /// The pattern names this placeholder more than once.
    DuplicatePlaceholder(Field),
    /// This candidate matches the pattern but holds a number too large for a `u32`.
    MalformedCandidate(String),
    /// The increment needs this field, and the pattern does not scope it.
    IncrementFieldMissing(Field),
    /// Incrementing this field would go past `u32::MAX`.
    IncrementOverflow(Field),
}

} // verus!
