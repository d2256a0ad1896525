//! What can go wrong while a tree is written or read.

use vstd::prelude::*;

verus! {

/// Why a tree could not be written or read.
#[derive(Debug, Clone, Copy, PartialEq, Eq, Structural)]
pub enum Error {
    /// The source ended before the encoding did.
    UnexpectedEnd,
    /// A sequence declares a field width that its numbers cannot have.
    InvalidWidth,
    /// A sign byte is neither 0 nor 1.
    InvalidSign,
    /// A word of the dictionary is not UTF-8.
    InvalidWord,
    /// A value needs a word that the encoding does not give: the word
    /// references run out, or one points behind the dictionary.
    InvalidWordIndex,
    /// The child references do not lay the nodes out breadth-first.
    InvalidLink,
    /// There is more than the encoding can count.
    TooLarge,
    /// The sink or the source failed.
    Failed,
}

impl Error {
    /// The description of the error, as text.
    pub open spec fn reason_text(self) -> Seq<char> {
        match self {
            Error::UnexpectedEnd => "unexpected end of input"@,
            Error::InvalidWidth => "invalid field width"@,
            Error::InvalidSign => "invalid sign byte"@,
            Error::InvalidWord => "word is not UTF-8"@,
            Error::InvalidWordIndex => "invalid word reference"@,
            Error::InvalidLink => "invalid child reference"@,
            Error::TooLarge => "too large to encode"@,
            Error::Failed => "reading or writing failed"@,
        }
    }

    /// A short description of the error.
    pub fn reason(&self) -> (text: &'static str)
        ensures
            text@ == self.reason_text(),
    {
        match self {
            Error::UnexpectedEnd => {
                "unexpected end of input"
            },
            Error::InvalidWidth => {
                "invalid field width"
            },
            Error::InvalidSign => {
                "invalid sign byte"
            },
            Error::InvalidWord => {
                "word is not UTF-8"
            },
            Error::InvalidWordIndex => {
                "invalid word reference"
            },
            Error::InvalidLink => {
                "invalid child reference"
            },
            Error::TooLarge => {
                "too large to encode"
            },
            Error::Failed => {
                "reading or writing failed"
            },
        }
    }
}

} // verus!
