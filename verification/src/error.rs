//! The failures an encode call can report.

use vstd::prelude::*;

verus! {

/// Why an encode call was refused.
#[derive(Clone, Copy, Debug, PartialEq, Eq, Structural)]
pub enum EncodeError {
    /// The input holds fewer bytes than the seed window that is copied
    /// verbatim before any match is attempted.
    InputTooShort,
    /// A length or distance does not fit the widest integer encoding.
    ValueTooWide,
}

/// What a call returned, with the bytes as a mathematical sequence.
pub open spec fn outcome(r: Result<Vec<u8>, EncodeError>) -> Result<Seq<u8>, EncodeError> {
    match r {
        Ok(bytes) => Ok(bytes@),
        Err(e) => Err(e),
    }
}

} // verus!
