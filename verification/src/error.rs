//! The failures that the library reports to its callers.

use vstd::prelude::*;

verus! {

/// Why an operation on cards, hands or tables did not produce a value.
#[derive(Clone, Copy, Debug, PartialEq, Eq, Structural)]
pub enum HandError {
    /// Card or hand text is malformed.
    ParseError,
    /// The hand has more cards than a compact code can hold.
    CapacityExceeded,
    /// A compact code holds a byte that is no card, or a card above an empty slot.
    MalformedCode,
    /// A well-formed canonical query is absent from a table that should hold it.
    DatasetLookupMiss,
    /// The canonical form failed its own validity check.
    CanonicalizationInvariantViolation,
}

} // verus!
