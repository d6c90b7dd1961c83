//! The failures of a forecast request.

use vstd::prelude::*;
use vstd::string::StringExecFns;

verus! {

/// A failed forecast request: the provider gave no usable answer, or its
/// document could not be read.
#[derive(Debug)]
pub enum SMHIError {
    SMHI(String),
    Document(String),
}

impl SMHIError {
    /// The reason, as given when the error was made.
    pub open spec fn reason(&self) -> Seq<char> {
        match self {
            SMHIError::SMHI(words) => words@,
            SMHIError::Document(words) => words@,
        }
    }

    /// The error as one line of text: the reason behind the error's name.
    pub fn to_text(&self) -> (text: String)
        ensures
            text@ == match self {
                SMHIError::SMHI(words) => "SMHIError::SMHI: "@ + words@,
                SMHIError::Document(words) => "SMHIError::Document: "@ + words@,
            },
    {
        match self {
            SMHIError::SMHI(words) => String::from_str("SMHIError::SMHI: ").concat(words.as_str()),
            SMHIError::Document(words) => String::from_str("SMHIError::Document: ").concat(
                words.as_str(),
            ),
        }
    }
}

} // verus!
