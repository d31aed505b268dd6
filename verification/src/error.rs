//! Error type of the library.

use vstd::prelude::*;

use crate::text::{concat, push_str};

verus! {

/// Errors from the standard library's I/O layer.
#[verifier::external_type_specification]
#[verifier::external_body]
pub struct ExIoError(std::io::Error);

/// Errors that can occur during mail analysis and processing.
#[derive(Debug)]
pub enum MailCrushError {
    /// I/O error when reading/writing files.
    IoError(std::io::Error),
    /// Error parsing the email.
    ParseError(String),
    /// The mail file is empty.
    EmptyMail,
    /// The mail structure is invalid.
    InvalidStructure(String),
    /// Configuration error.
    ConfigError(String),
}

/// The text of an I/O error (its `Display` output).
#[verifier::external_body]
pub(crate) fn io_error_text(e: &std::io::Error) -> String {
    format!("{}", e)
}

impl MailCrushError {
    /// The human-readable message of the error.
    pub fn message(&self) -> (res: String)
        ensures
            match self {
                MailCrushError::IoError(_) => exists|t: Seq<char>| res@ == "I/O error: "@ + t,
                MailCrushError::ParseError(e) => res@ == "Mail parsing error: "@ + e@,
                MailCrushError::EmptyMail => res@ == "Empty mail file"@,
                MailCrushError::InvalidStructure(e) => res@ == "Invalid mail structure: "@ + e@,
                MailCrushError::ConfigError(e) => res@ == "Configuration error: "@ + e@,
            },
    {
        match self {
            MailCrushError::IoError(e) => {
                let t = io_error_text(e);
                concat("I/O error: ", t.as_str())
            },
            MailCrushError::ParseError(e) => concat("Mail parsing error: ", e.as_str()),
            MailCrushError::EmptyMail => {
                let mut s = String::new();
                push_str(&mut s, "Empty mail file");
                s
            },
            MailCrushError::InvalidStructure(e) => concat("Invalid mail structure: ", e.as_str()),
            MailCrushError::ConfigError(e) => concat("Configuration error: ", e.as_str()),
        }
    }
}

impl From<std::io::Error> for MailCrushError {
    fn from(err: std::io::Error) -> (res: Self) {
        MailCrushError::IoError(err)
    }
}

impl vstd::std_specs::convert::FromSpecImpl<std::io::Error> for MailCrushError {
    open spec fn obeys_from_spec() -> bool {
        true
    }

    open spec fn from_spec(v: std::io::Error) -> Self {
        MailCrushError::IoError(v)
    }
}

} // verus!
