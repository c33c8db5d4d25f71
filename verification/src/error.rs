use vstd::prelude::*;

verus! {

/// The kinds of syntax fault the scanning layer can report.
#[derive(Clone, Copy, Debug, PartialEq, Eq, Structural)]
pub enum ErrorCode {
    /// A malformed digit sequence, a missing required digit, an overflowed
    /// exponent, or unexpected content after a number.
    InvalidNumber,
    /// An unterminated block comment, or a lone comment opener at the very
    /// end of the input.
    TrailingCharacters,
}

/// A syntax fault stamped with the source position at which it was detected.
///
/// `line` is 1-based; `col` is 0-based and resets at each line start.
#[derive(Clone, Copy, Debug, PartialEq, Eq, Structural)]
pub struct Error {
    pub code: ErrorCode,
    pub line: usize,
    pub col: usize,
}

} // verus!
