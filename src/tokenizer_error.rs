//! What the scanner reports about source text that it cannot turn into tokens.

use vstd::prelude::*;

verus! {

/// A problem found by the scanner, with the line where it was found. The
/// scanner records it and goes on.
#[derive(Debug, Clone, Copy, PartialEq, Eq, Structural)]
pub enum TokenizerError {
    /// End of input before the closing quote of a string.
    UnterminatedString { line: usize },
    /// A byte that starts no token.
    UnexpectedCharacter { line: usize, ch: char },
    /// String content that is not valid UTF-8.
    InvalidUTF8String { line: usize },
}

} // verus!
