use vstd::prelude::*;

verus! {

/// Failures of the two byte-level codecs: base-94 numerals and the
/// 94-symbol string alphabet.
#[derive(Debug, Clone, PartialEq, Eq, Structural)]
pub enum EncodingError {
    /// A byte outside the printable range `!`..=`~`; carries that byte.
    InvalidDigit(u8),
    /// A character with no slot in the string alphabet; carries that character.
    UnsupportedCharacter(char),
    /// A base-94 numeral whose value does not fit in 64 bits.
    NumberTooLarge,
}

/// Failures of token decoding and of arity-driven term parsing.
#[derive(Debug, Clone, PartialEq, Eq, Structural)]
pub enum TokenError {
    /// A token whose first byte matches no tag; carries that byte.
    UnknownTokenTag(u8),
    /// A token with no bytes at all.
    EmptyToken,
    /// Input ran out at this position while more was required.
    UnexpectedEndOfStream(usize),
    /// A token payload failed in one of the byte-level codecs.
    Encoding(EncodingError),
}

/// A failure while decoding a whole token stream: the 0-based index of the
/// offending token together with the underlying cause.
#[derive(Debug, Clone, PartialEq, Eq, Structural)]
pub struct TokenStreamError {
    pub index: usize,
    pub cause: TokenError,
}

} // verus!
