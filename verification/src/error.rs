//! The ways in which deriving a dungeon from a token fails.

use vstd::prelude::*;

verus! {

/// Why a token gives no dungeon.
#[derive(Debug, Clone, Copy, PartialEq, Eq, Structural)]
pub enum DecodeError {
    /// The token does not begin with `nft1`.
    InvalidPrefix,
    /// The token ends before the room count, or right after it, so that
    /// there is nothing to read the rooms from.
    TooShort,
    /// A character that should be a digit or a letter is neither.
    InvalidCharacter,
    /// The token has fewer characters than rooms, so that the room sizes,
    /// which are read from its end, would start before its first character.
    IndexOutOfBounds,
    /// The box around the room centers has too few free cells for the cells
    /// that are to be scattered in it.
    ScatterCapacityExceeded,
}

/// What [`DecodeError::message`] says of an error.
pub open spec fn error_text(error: DecodeError) -> Seq<char> {
    match error {
        DecodeError::InvalidPrefix => "the token does not start with 'nft1'"@,
        DecodeError::TooShort => "the token is too short"@,
        DecodeError::InvalidCharacter => "the token holds a character that is neither digit nor letter"@,
        DecodeError::IndexOutOfBounds => "the token has fewer characters than rooms"@,
        DecodeError::ScatterCapacityExceeded => "the box around the rooms has too few free cells"@,
    }
}

impl DecodeError {
    /// Says in words what went wrong.
    pub fn message(&self) -> (text: String)
        ensures
            text@ == error_text(*self),
    {
        let text: &str = match self {
            DecodeError::InvalidPrefix => "the token does not start with 'nft1'",
            DecodeError::TooShort => "the token is too short",
            DecodeError::InvalidCharacter => "the token holds a character that is neither digit nor letter",
            DecodeError::IndexOutOfBounds => "the token has fewer characters than rooms",
            DecodeError::ScatterCapacityExceeded => "the box around the rooms has too few free cells",
        };
        text.to_owned()
    }
}

} // verus!
