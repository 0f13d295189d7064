//! Errors of the command line front end.
use vstd::prelude::*;

verus! {

/// What went wrong on the command line.
#[derive(Debug, Clone)]
pub enum CliError {
    /// No input file was named.
    NoInputFile,
    /// A flag that the front end does not know.
    UnknownFlag(String),
    /// The input could not be parsed; the text says why.
    ParsingError(String),
}

/// The message of an error, as the front end prints it.
pub open spec fn error_text(e: CliError) -> Seq<char> {
    match e {
        CliError::NoInputFile => "no input file provided"@,
        CliError::UnknownFlag(s) => "unknown flag: "@ + s@,
        CliError::ParsingError(s) => "parsing error: "@ + s@,
    }
}

impl CliError {
    /// The message of the error.
    pub fn message(&self) -> (r: String)
        ensures
            r@ == error_text(*self),
    {
        match self {
            CliError::NoInputFile => String::from_str("no input file provided"),
            CliError::UnknownFlag(s) => {
                let mut m = String::from_str("unknown flag: ");
                m.append(s.as_str());
                m
            },
            CliError::ParsingError(s) => {
                let mut m = String::from_str("parsing error: ");
                m.append(s.as_str());
                m
            },
        }
    }
}

} // verus!
