//! Why a Base64 decoding gave no output.

use vstd::prelude::*;

verus! {

/// Why a Base64 decoding gave no output.
#[derive(Clone, Copy, Debug, PartialEq, Eq, Structural)]
pub enum Base64Error {
    /// The input is not valid under the decoding rules.
    InvalidInput,
    /// The decoded bytes do not fit in the destination.
    OutputTooSmall { required: usize, provided: usize },
}

} // verus!
