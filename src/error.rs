use vstd::prelude::*;

verus! {

/// The kinds of failure that the bridge reports to its callers.
#[derive(Debug, Clone, Copy, PartialEq, Eq, Structural)]
pub enum BridgeError {
    /// Bad warm-file header: unreadable, wrong magic or wrong version.
    Config,
    /// A rule id is absent from the table that was asked.
    NotFound,
    /// A rule id is already present where it was being inserted.
    Conflict,
    /// A rule was routed to a table of another family.
    FamilyMismatch,
    /// File-system or mapping failure around warm or cold storage.
    Io,
    /// A malformed binary entry or an anchor block of the wrong shape.
    Serialization,
    /// A hot cache of capacity zero cannot take a new entry.
    Capacity,
    /// `promote_staged` was called with no staged version.
    NoStagedVersion,
}

} // verus!
