use vstd::prelude::*;

verus! {

/// Why a document could not be read.
#[derive(Debug, Clone, Copy, PartialEq, Eq, Structural)]
pub enum ParseError {
    /// The byte source could not be read.
    IoError,
    /// A character that no token can start with, or that breaks a keyword.
    UnexpectedCharacter(char),
    /// The input ended inside a keyword or a quoted string.
    UnterminatedLiteral,
    /// An integer numeral outside the range of `i64`.
    NumberOutOfRange,
    /// A run of numeral characters that is not a numeral.
    NumberFormat,
    /// A token that the grammar does not allow where it stands.
    UnexpectedToken,
    /// The tokens ran out where one was still expected.
    UnexpectedEndOfInput,
}

} // verus!
