//! The ways in which encoding fails.

use vstd::prelude::*;

verus! {

/// Why an encoding was given up. Whatever was written before is no prefix of
/// a canonical text and is to be discarded.
#[derive(Clone, Copy, Debug, PartialEq, Eq, Structural)]
pub enum EncodingError {
    /// A floating-point value is NaN or infinite, which JSON cannot express.
    NonFiniteNumber,
    /// An event that belongs to an open object arrived while none was open.
    UnbalancedScope,
    /// A raw fragment is not the text of a JSON value.
    MalformedRawFragment,
}

} // verus!
