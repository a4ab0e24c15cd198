//! Error kinds reported by the PE reader.

use vstd::prelude::*;

verus! {

/// Everything that can go wrong while reading a PE image.  All variants are
/// recoverable: a caller reports the failure for the one malformed file and
/// goes on.
#[derive(Clone, Copy, Debug, PartialEq, Eq, Structural)]
pub enum PeError {
    /// A field that should hold hexadecimal digits does not parse.
    InvalidAddress,
    /// Offset arithmetic left the unsigned 32-bit range (sum too large).
    ArithmeticOverflow,
    /// Offset arithmetic left the unsigned 32-bit range (difference below zero).
    ArithmeticUnderflow,
    /// A computed row or column lies outside the byte matrix.
    SectionTableOutOfBounds,
    /// A relative virtual address is not contained in any known section.
    UnresolvableRva,
    /// The buffer is too short for a required fixed-offset field.
    TruncatedInput,
    /// The import-by-name table's terminator was never found before the
    /// buffer ended.
    MalformedBynameTable,
}

impl PeError {
    /// A short human-readable name for the error kind.
    pub fn message(&self) -> (r: &'static str)
        ensures
            r@ == self.message_spec(),
    {
        match self {
            PeError::InvalidAddress => "invalid address",
            PeError::ArithmeticOverflow => "arithmetic overflow",
            PeError::ArithmeticUnderflow => "arithmetic underflow",
            PeError::SectionTableOutOfBounds => "section table out of bounds",
            PeError::UnresolvableRva => "unresolvable rva",
            PeError::TruncatedInput => "truncated input",
            PeError::MalformedBynameTable => "malformed byname table",
        }
    }

    /// What `message` returns, as a sequence of characters.
    pub open spec fn message_spec(&self) -> Seq<char> {
        match self {
            PeError::InvalidAddress => "invalid address"@,
            PeError::ArithmeticOverflow => "arithmetic overflow"@,
            PeError::ArithmeticUnderflow => "arithmetic underflow"@,
            PeError::SectionTableOutOfBounds => "section table out of bounds"@,
            PeError::UnresolvableRva => "unresolvable rva"@,
            PeError::TruncatedInput => "truncated input"@,
            PeError::MalformedBynameTable => "malformed byname table"@,
        }
    }
}

} // verus!
