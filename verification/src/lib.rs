//! Codecs for financial-transaction records.
//!
//! Three wire formats share one contract: a codec decodes a byte stream into
//! an ordered sequence of [`Transaction`] records, and encodes such a sequence
//! back into bytes.  The formats are a compact little-endian binary layout,
//! a whitespace-separated text line per record, and a comma-delimited row per
//! record with conventional quoting.  All failures are reported through the
//! shared [`ParserError`] taxonomy.

use vstd::prelude::*;

pub mod binary;
pub mod csv;
pub mod dispatch;
pub mod errors;
pub mod models;
pub mod numbers;
pub mod text;
pub mod txt;

pub use crate::binary::BinParser;
pub use crate::csv::Csv;
pub use crate::dispatch::FormatKind;
pub use crate::errors::{ParserError, ParserErrorView};
pub use crate::models::{first_mismatch, Transaction, TransactionView};
pub use crate::txt::TxtParser;

verus! {

/// The contract every codec satisfies: reading bytes yields the record
/// sequence given by `spec_read`, and writing records appends exactly the
/// bytes given by `spec_write`, leaving the sink untouched on failure.
pub trait Format {
    /// What decoding a byte sequence yields: the records, or the error kind.
    spec fn spec_read(input: Seq<u8>) -> Result<Seq<TransactionView>, ParserErrorView>;

    /// What encoding a record sequence yields: the bytes, or the error kind.
    spec fn spec_write(txs: Seq<TransactionView>) -> Result<Seq<u8>, ParserErrorView>;

    /// Decodes the full byte stream into transactions.
    fn read(input: &[u8]) -> (r: Result<Vec<Transaction>, ParserError>)
        ensures
            match Self::spec_read(input@) {
                Ok(s) => r matches Ok(v) && v.deep_view() == s,
                Err(e) => r matches Err(x) && x@ == e,
            },
    ;

    /// Encodes the transactions, appending the bytes to `writer`.
    fn write(writer: &mut Vec<u8>, transactions: &[Transaction]) -> (r: Result<
        (),
        ParserError,
    >)
        ensures
            match Self::spec_write(transactions.deep_view()) {
                Ok(bytes) => r matches Ok(u) && final(writer)@ == old(writer)@ + bytes,
                Err(e) => r matches Err(x) && x@ == e && final(writer)@ == old(writer)@,
            },
    ;
}

} // verus!
