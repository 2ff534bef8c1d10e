//! The errors of the codec.

use vstd::prelude::*;

verus! {

/// Everything that can go wrong while a value is written or read.
///
/// Every error is final: no function of this crate retries, and none hands
/// back a partial value beside an error.
#[derive(Debug, Clone, PartialEq, Eq)]
pub enum Error {
    /// A failure reported by the caller's own traversal of a value; this
    /// crate never produces it.
    Message(String),
    /// The input ended where more bytes were expected.
    Eof,
    /// The leading byte starts no token of the grammar; also a string that
    /// was to be read as a character and does not hold exactly one byte.
    Syntax,
    /// A boolean token was asked for and the input holds something else.
    ExpectedBoolean,
    /// An integer token was asked for and the input holds something else,
    /// or a number outside the range of the integer type asked for.
    ExpectedInteger,
    /// A string token was asked for and the input holds something else, or
    /// a length that ends inside a character; also what reading an enum
    /// variant that carries nothing comes to.
    ExpectedString,
    /// The null token was asked for and the input holds something else.
    ExpectedNull,
    /// A list was asked for and the input does not open one.
    ExpectedList,
    /// A list is not closed where it has to end.
    ExpectedListEnd,
    /// A dictionary was asked for and the input does not open one.
    ExpectedDictionary,
    /// A dictionary is not closed where it has to end.
    ExpectedDictionaryEnd,
    /// A complete value was read and input remains.
    TrailingCharacters,
}

/// What the functions of this crate give back.
pub type Result<T> = std::result::Result<T, Error>;

} // verus!
