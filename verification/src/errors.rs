//! The failures of start-up, of configuration and of a sensor request.

use crate::manager_db::errors::DBError;
use vstd::prelude::*;
use vstd::string::StringExecFns;

verus! {

/// A failure that ends the program.
#[derive(Debug)]
pub struct UnrecoverableError(pub String);

/// A failure to find or read the configuration.
#[derive(Debug)]
pub struct ConfigError(pub String);

/// A failed request to a sensor.
#[derive(Debug)]
pub struct TempError(pub String);

impl UnrecoverableError {
    /// The reason, as given when the error was made.
    pub open spec fn reason(&self) -> Seq<char> {
        self.0@
    }

    /// The error as one line of text: the reason behind the error's name.
    pub fn to_text(&self) -> (text: String)
        ensures
            text@ == "UnrecoverableError: "@ + self.reason(),
    {
        String::from_str("UnrecoverableError: ").concat(self.0.as_str())
    }

    /// The failure of the store as a failure that ends the program; the
    /// reason is the line of text of the store's error.
    pub fn from_db_error(e: &DBError) -> (r: UnrecoverableError)
        ensures
            r.reason() == "DBError: "@ + e.reason(),
    {
        UnrecoverableError(e.to_text())
    }

    /// The failure of the configuration as a failure that ends the program;
    /// the reason is the line of text of the configuration's error.
    pub fn from_config_error(e: &ConfigError) -> (r: UnrecoverableError)
        ensures
            r.reason() == "ConfigError: "@ + e.reason(),
    {
        UnrecoverableError(e.to_text())
    }
}

impl ConfigError {
    /// The reason, as given when the error was made.
    pub open spec fn reason(&self) -> Seq<char> {
        self.0@
    }

    /// An error with the given reason.
    pub fn new(reason: &str) -> (e: ConfigError)
        ensures
            e.reason() == reason@,
    {
        ConfigError(String::from_str(reason))
    }

    /// The error as one line of text: the reason behind the error's name.
    pub fn to_text(&self) -> (text: String)
        ensures
            text@ == "ConfigError: "@ + self.reason(),
    {
        String::from_str("ConfigError: ").concat(self.0.as_str())
    }
}

impl TempError {
    /// The reason, as given when the error was made.
    pub open spec fn reason(&self) -> Seq<char> {
        self.0@
    }

    /// An error with the given reason.
    pub fn new(reason: &str) -> (e: TempError)
        ensures
            e.reason() == reason@,
    {
        TempError(String::from_str(reason))
    }

    /// The error as one line of text: the reason behind the error's name.
    pub fn to_text(&self) -> (text: String)
        ensures
            text@ == "TempError: "@ + self.reason(),
    {
        String::from_str("TempError: ").concat(self.0.as_str())
    }
}

} // verus!
