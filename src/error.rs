//! The errors that decoding, parsing and building report.

use vstd::prelude::*;

verus! {

/// Why a hexadecimal text was refused.
#[derive(Debug, Clone, PartialEq, Eq)]
pub enum HexFault {
    /// The text has an odd number of digits.
    OddLength,
    /// A character that is not a hexadecimal digit, at this byte offset.
    InvalidCharacter { c: char, index: usize },
    /// The text does not hold the number of digits the output needs.
    InvalidLength,
}

/// What went wrong in lambda notation.
#[derive(Debug, Clone, PartialEq, Eq)]
pub enum SyntaxFault {
    /// A character that no term can start with.
    UnexpectedCharacter(char),
    /// An application is not closed by `)`.
    MissingCloseParen,
    /// A run of digits whose value does not fit a variable index.
    InvalidNumeral,
}

/// The errors of this library; each carries where the input went wrong.
#[derive(Debug, Clone, PartialEq, Eq)]
pub enum BlcError {
    /// The input ended inside a term; `position` counts the bits (binary
    /// input) or characters (text input) that were there.
    UnexpectedEndOfInput { position: usize },
    /// A term nested deeper than the decoder was allowed to go; `position`
    /// is the bit offset of the node that would have gone deeper.
    RecursionLimitExceeded { position: usize },
    /// Hexadecimal text that is not an even run of hexadecimal digits.
    InvalidHexEncoding(HexFault),
    /// Lambda notation that does not parse; `position` is a character offset.
    MalformedTextSyntax { position: usize, fault: SyntaxFault },
    /// A compact integer whose mode asks for more bytes than there are.
    InsufficientBytesForCompactInteger { needed: usize, available: usize },
    /// A code reference that is not exactly 32 bytes long.
    InvalidCodeReferenceLength { length: usize },
}

} // verus!
