//! The errors reported by this library.

use vstd::prelude::*;

verus! {

/// Why an operation on fingerprints was rejected.
#[derive(Debug, Clone, Copy, PartialEq, Eq, Structural)]
pub enum HashError {
    /// A hexadecimal text has an odd number of characters.
    OddLength,
    /// A hexadecimal text holds a character that is not a hexadecimal digit.
    InvalidDigit,
    /// Two fingerprints of different byte lengths were compared.
    LengthMismatch,
    /// The name does not select a supported hash algorithm.
    UnknownAlgorithm,
}

impl HashError {
    /// A short description of the error, for display to a user.
    pub fn message(&self) -> (text: &'static str)
        ensures
            text@ == self.message_text(),
    {
        match self {
            HashError::OddLength => "Invalid hex string length",
            HashError::InvalidDigit => "Invalid hex: invalid digit found in string",
            HashError::LengthMismatch => "Hash length mismatch",
            HashError::UnknownAlgorithm => "Unknown algorithm",
        }
    }

    /// The text that [`HashError::message`] returns.
    pub open spec fn message_text(&self) -> Seq<char> {
        match self {
            HashError::OddLength => "Invalid hex string length"@,
            HashError::InvalidDigit => "Invalid hex: invalid digit found in string"@,
            HashError::LengthMismatch => "Hash length mismatch"@,
            HashError::UnknownAlgorithm => "Unknown algorithm"@,
        }
    }
}

} // verus!
