//! The failure signal of the bit-scanning operations.

use vstd::prelude::*;

verus! {

/// The single failure kind: the scanned value was zero, so no bit is set.
#[derive(Clone, Copy, Debug, PartialEq, Eq, Structural)]
pub enum BitMathError {
    ZeroValue,
}

impl BitMathError {
    /// A human-readable description of the error.
    pub fn message(&self) -> (s: &'static str)
        ensures
            s@ == "Can not get most significant bit or least significant bit on zero value"@,
    {
        "Can not get most significant bit or least significant bit on zero value"
    }
}

} // verus!
