//! Length/distance tokens.
//!
//! A token is the encoded length, the separator byte and the encoded
//! distance, with nothing before or after. Neither the integers nor the
//! literal bytes around a token are escaped, so a token cannot be told from
//! literal bytes that happen to hold the separator.

use crate::error::{outcome, EncodeError};
use crate::width::{be_bytes, short_be_bytes, WIDTH_LIMIT};
use vstd::prelude::*;

verus! {

/// The byte between a token's length and its distance: an ASCII colon.
pub const SEPARATOR: u8 = 0x3A;

/// The bytes of the token for `length` and `distance`.
pub open spec fn token_bytes(length: nat, distance: nat) -> Seq<u8> {
    be_bytes(length).push(SEPARATOR) + be_bytes(distance)
}

/// What encoding a token gives: its bytes, or the refusal of a length or
/// distance at or above the width limit.
pub open spec fn encode_token(length: nat, distance: nat) -> Result<Seq<u8>, EncodeError> {
    if length >= WIDTH_LIMIT || distance >= WIDTH_LIMIT {
        Err(EncodeError::ValueTooWide)
    } else {
        Ok(token_bytes(length, distance))
    }
}

/// Serializes a length/distance pair as
/// `short_be_bytes(length) ++ [SEPARATOR] ++ short_be_bytes(distance)`.
pub fn to_code(length: usize, distance: usize) -> (r: Result<Vec<u8>, EncodeError>)
    ensures
        outcome(r) == encode_token(length as nat, distance as nat),
{
    let mut ld = match short_be_bytes(length) {
        Ok(bytes) => bytes,
        Err(e) => {
            return Err(e);
        },
    };
    let mut tail = match short_be_bytes(distance) {
        Ok(bytes) => bytes,
        Err(e) => {
            return Err(e);
        },
    };
    ld.push(SEPARATOR);
    ld.append(&mut tail);
    Ok(ld)
}

} // verus!
