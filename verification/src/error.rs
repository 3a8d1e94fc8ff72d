//! The error of the decoder.

use vstd::prelude::*;

verus! {

/// Why a text could not be decoded.
#[derive(Clone, Copy, Debug, PartialEq, Eq, Structural)]
pub enum DecodeError {
    /// An escape marker is not followed by one of the three escape codes:
    /// another character follows it, or the text ends with it.
    MalformedEscape,
}

} // verus!
