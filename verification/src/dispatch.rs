//! Selecting a codec by its format name.
//!
//! The command-line tools name a format as `csv`, `txt` or `bin`; any other
//! name is rejected with an explicit validation error rather than a crash.

use vstd::prelude::*;
use vstd::string::StringExecFns;

use crate::binary::{bin_spec_read, bin_spec_write, BinParser};
use crate::csv::{csv_spec_read, csv_spec_write, Csv};
use crate::errors::{ParserError, ParserErrorView};
use crate::models::{Transaction, TransactionView};
use crate::text::chars_of;
use crate::txt::{txt_spec_read, txt_spec_write, TxtParser};
use crate::Format;

verus! {

/// The closed set of wire formats.
#[derive(Clone, Copy, Debug, PartialEq, Eq, Structural)]
pub enum FormatKind {
    /// The little-endian binary layout, named `bin`.
    Binary,
    /// The whitespace-separated line format, named `txt`.
    TextLine,
    /// The comma-delimited format, named `csv`.
    Delimited,
}

/// The format a name selects, if any.
pub open spec fn spec_format_of(name: Seq<char>) -> Option<FormatKind> {
    if name == "bin"@ {
        Some(FormatKind::Binary)
    } else if name == "txt"@ {
        Some(FormatKind::TextLine)
    } else if name == "csv"@ {
        Some(FormatKind::Delimited)
    } else {
        None
    }
}

/// Selects a format by name, rejecting an unknown name with a validation
/// error that repeats the name.
pub fn format_of_name(name: &str) -> (r: Result<FormatKind, ParserError>)
    ensures
        match spec_format_of(name@) {
            Some(k) => r == Ok::<FormatKind, ParserError>(k),
            None => r matches Err(e) && e@ == ParserErrorView::Invalid(
                "Unknown format: "@ + name@,
            ),
        },
{
    proof {
        reveal_strlit("bin");
        reveal_strlit("txt");
        reveal_strlit("csv");
    }
    let cs = chars_of(name);
    if cs.len() == 3 {
        let c0 = cs[0];
        let c1 = cs[1];
        let c2 = cs[2];
        if c0 == 'b' && c1 == 'i' && c2 == 'n' {
            proof {
                assert(name@ =~= "bin"@);
            }
            return Ok(FormatKind::Binary);
        }
        if c0 == 't' && c1 == 'x' && c2 == 't' {
            proof {
                assert(name@ =~= "txt"@);
            }
            return Ok(FormatKind::TextLine);
        }
        if c0 == 'c' && c1 == 's' && c2 == 'v' {
            proof {
                assert(name@ =~= "csv"@);
            }
            return Ok(FormatKind::Delimited);
        }
    }
    proof {
        assert(name@ != "bin"@ && name@ != "txt"@ && name@ != "csv"@);
    }
    let mut s = String::from_str("Unknown format: ");
    s.append(name);
    Err(ParserError::Invalid(s))
}

/// What decoding under a given format yields.
pub open spec fn spec_read_as(kind: FormatKind, input: Seq<u8>) -> Result<
    Seq<TransactionView>,
    ParserErrorView,
> {
    match kind {
        FormatKind::Binary => bin_spec_read(input),
        FormatKind::TextLine => txt_spec_read(input),
        FormatKind::Delimited => csv_spec_read(input),
    }
}

/// What encoding under a given format yields.
pub open spec fn spec_write_as(kind: FormatKind, txs: Seq<TransactionView>) -> Result<
    Seq<u8>,
    ParserErrorView,
> {
    match kind {
        FormatKind::Binary => bin_spec_write(txs),
        FormatKind::TextLine => txt_spec_write(txs),
        FormatKind::Delimited => csv_spec_write(txs),
    }
}

/// Decodes the byte stream under the selected format.
pub fn read_as(kind: FormatKind, input: &[u8]) -> (r: Result<Vec<Transaction>, ParserError>)
    ensures
        match spec_read_as(kind, input@) {
            Ok(s) => r matches Ok(v) && v.deep_view() == s,
            Err(e) => r matches Err(x) && x@ == e,
        },
{
    match kind {
        FormatKind::Binary => BinParser::read(input),
        FormatKind::TextLine => TxtParser::read(input),
        FormatKind::Delimited => Csv::read(input),
    }
}

/// Encodes the records under the selected format, appending to `writer`.
pub fn write_as(kind: FormatKind, writer: &mut Vec<u8>, transactions: &[Transaction]) -> (r:
    Result<(), ParserError>)
    ensures
        match spec_write_as(kind, transactions.deep_view()) {
            Ok(bytes) => r is Ok && final(writer)@ == old(writer)@ + bytes,
            Err(e) => r matches Err(x) && x@ == e && final(writer)@ == old(writer)@,
        },
{
    match kind {
        FormatKind::Binary => BinParser::write(writer, transactions),
        FormatKind::TextLine => TxtParser::write(writer, transactions),
        FormatKind::Delimited => Csv::write(writer, transactions),
    }
}

} // verus!
