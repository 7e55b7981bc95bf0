//! Error types of the encoder and the decoder.

use vstd::prelude::*;

verus! {

/// Why a text could not be turned into word counts.
#[derive(Debug, PartialEq, Eq, Structural)]
pub enum EncodingError {
    /// The text holds a character outside ASCII.
    NonAsciiInput,
    /// No sentence of the text holds a word.
    NoValidSentences,
}

/// Why a sequence of codes could not be turned into characters.
#[derive(Debug)]
pub enum DecodingError {
    /// The character set holds no character.
    EmptyCharacterSet,
    /// The code names no character of the set. The decoder counts on from
    /// the first character where a code is beyond the last, so it never
    /// gives this error.
    InvalidCode(usize),
}

} // verus!
