//! The failures that the engine reports.

use vstd::prelude::*;

verus! {

/// Why an operation of the engine refused its input.
#[derive(Clone, Copy, Debug, PartialEq, Eq, Structural)]
pub enum EngineError {
    /// Two operands live in rings of different dimension.
    DimensionMismatch,
    /// Two operands disagree on their modulus, level or plaintext modulus.
    LevelMismatch,
    /// The value has no inverse under the modulus.
    NotInvertible,
    /// The random source ran dry before the operation had drawn all it needs.
    InsufficientEntropy,
    /// The noise has outgrown what decryption can remove.
    NoiseOverflow,
}

impl EngineError {
    /// A short sentence for the user, one per variant.
    pub fn message(&self) -> (text: String)
        ensures
            text@ == error_text(*self),
    {
        match self {
            EngineError::DimensionMismatch => String::from_str("ring dimension mismatch"),
            EngineError::LevelMismatch => String::from_str("modulus level mismatch"),
            EngineError::NotInvertible => String::from_str("value is not invertible"),
            EngineError::InsufficientEntropy => String::from_str("insufficient entropy"),
            EngineError::NoiseOverflow => String::from_str("noise overflow"),
        }
    }
}

/// The text that [`EngineError::message`] gives for each failure.
pub open spec fn error_text(e: EngineError) -> Seq<char> {
    match e {
        EngineError::DimensionMismatch => "ring dimension mismatch"@,
        EngineError::LevelMismatch => "modulus level mismatch"@,
        EngineError::NotInvertible => "value is not invertible"@,
        EngineError::InsufficientEntropy => "insufficient entropy"@,
        EngineError::NoiseOverflow => "noise overflow"@,
    }
}

} // verus!
