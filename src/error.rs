use vstd::prelude::*;

verus! {

/// Why decoding failed.
#[derive(Debug, Clone, Copy, PartialEq, Eq, Structural)]
pub enum DecodeError {
    /// The stream breaks a structural rule of the format.
    InvalidData,
    /// The stream ended before the format allowed it to.
    UnexpectedEof,
}

} // verus!
