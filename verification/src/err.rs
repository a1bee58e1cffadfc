//! The error taxonomy of the parser.

use vstd::prelude::*;

verus! {

/// Error type of parsers.
///
/// Every failure of the library is reported as one of these kinds; nested
/// assembly failures propagate unchanged to the outermost caller.
#[derive(PartialEq, Eq, Structural, Clone, Copy, Debug)]
pub enum Error {
    /// Document data is not valid UTF-8.
    Utf8,
    /// A field's text does not match the expected format for its target type.
    ParseField,
    /// A line was requested but none remain.
    EndOfDocument,
    /// A field was requested but none remain on the current line.
    EndOfLine,
    /// A line contained surplus unparsed fields.
    SurplusFields,
}

impl Error {
    /// The text naming this error kind.
    pub open spec fn spec_message(&self) -> Seq<char> {
        match self {
            Error::Utf8 => "Error::Utf8"@,
            Error::ParseField => "Error::ParseField"@,
            Error::EndOfDocument => "Error::EndOfDocument"@,
            Error::EndOfLine => "Error::EndOfLine"@,
            Error::SurplusFields => "Error::SurplusFields"@,
        }
    }

    /// The error kind's name, for display.
    pub fn message(&self) -> (r: String)
        ensures
            r@ == self.spec_message(),
    {
        match self {
            Error::Utf8 => "Error::Utf8".to_owned(),
            Error::ParseField => "Error::ParseField".to_owned(),
            Error::EndOfDocument => "Error::EndOfDocument".to_owned(),
            Error::EndOfLine => "Error::EndOfLine".to_owned(),
            Error::SurplusFields => "Error::SurplusFields".to_owned(),
        }
    }
}

} // verus!
