//! The error taxonomy shared by every codec.

use vstd::prelude::*;
use vstd::string::StringExecFns;

verus! {

/// A failure of reading or writing transaction records.
///
/// Every codec reports its failures through this closed set of kinds, so that
/// callers can treat the three formats uniformly.
#[derive(Debug)]
pub enum ParserError {
    /// The byte stream ended before an expected field was complete, or the
    /// underlying transport could not be read or written.
    Io,
    /// The delimited-field framing is broken (an unterminated quote, a stray
    /// quote inside a bare field, or bytes that are not valid UTF-8).
    Csv,
    /// A record failed validation; the text names the offending field, the
    /// 1-based line number, and the line itself.
    Invalid(String),
    /// A record failed validation and no line context is available.
    InvalidCsv,
}

/// The mathematical value of a [`ParserError`]: the same kinds, with the
/// explanation as a sequence of characters.
#[verifier::ext_equal]
pub enum ParserErrorView {
    Io,
    Csv,
    Invalid(Seq<char>),
    InvalidCsv,
}

/// The text that describes an error kind.
pub open spec fn spec_message(e: ParserErrorView) -> Seq<char> {
    match e {
        ParserErrorView::Io => "IO error"@,
        ParserErrorView::Csv => "CSV error"@,
        ParserErrorView::Invalid(m) => "Invalid: "@ + m,
        ParserErrorView::InvalidCsv => "Invalid csv"@,
    }
}

impl ParserError {
    /// A human-readable description of the failure.
    pub fn message(&self) -> (s: String)
        ensures
            s@ == spec_message(self@),
    {
        match self {
            ParserError::Io => String::from_str("IO error"),
            ParserError::Csv => String::from_str("CSV error"),
            ParserError::Invalid(reason) => {
                let mut s = String::from_str("Invalid: ");
                s.append(reason.as_str());
                s
            },
            ParserError::InvalidCsv => String::from_str("Invalid csv"),
        }
    }
}

impl View for ParserError {
    type V = ParserErrorView;

    open spec fn view(&self) -> ParserErrorView {
        match self {
            ParserError::Io => ParserErrorView::Io,
            ParserError::Csv => ParserErrorView::Csv,
            ParserError::Invalid(s) => ParserErrorView::Invalid(s@),
            ParserError::InvalidCsv => ParserErrorView::InvalidCsv,
        }
    }
}

} // verus!
