//! The failure that the store reports to its callers.

use vstd::prelude::*;
use vstd::string::StringExecFns;

verus! {

/// A failed store operation, with the reason in words.
#[derive(Debug)]
pub struct DBError(pub String);

impl DBError {
    /// The reason, as given when the error was made.
    pub open spec fn reason(&self) -> Seq<char> {
        self.0@
    }

    /// An error with the given reason.
    pub fn new(reason: &str) -> (e: DBError)
        ensures
            e.reason() == reason@,
    {
        DBError(String::from_str(reason))
    }

    /// The error as one line of text: the reason behind the error's name.
    pub fn to_text(&self) -> (text: String)
        ensures
            text@ == "DBError: "@ + self.reason(),
    {
        String::from_str("DBError: ").concat(self.0.as_str())
    }
}

} // verus!
