//! The transaction record that every codec produces and consumes.

use vstd::prelude::*;

use crate::errors::{ParserError, ParserErrorView};
use crate::numbers::{
    dec_i64, dec_u64, parse_i64_chars, parse_u64_chars, push_i64_chars, push_u64_chars,
    spec_parse_i64, spec_parse_u64,
};
use crate::text::{chars_of, push_str_chars, string_from_chars};

verus! {

/// A delimited record that maps onto a transaction: at least the four
/// fields in order, with the id and the amount parsing as integers.
pub open spec fn csv_record_ok(fields: Seq<Seq<char>>) -> bool {
    fields.len() >= 4 && spec_parse_u64(fields[0]) is Some && spec_parse_i64(fields[2]) is Some
}

/// One financial-transaction record.
///
/// Records are immutable value objects: codecs construct them whole and never
/// mutate them in place.  Uniqueness of `id` is not enforced at this layer.
#[derive(Debug)]
pub struct Transaction {
    /// Identifier of the record.
    pub id: u64,
    /// Identifier or number of the account.  When a record travels through a
    /// delimited format the field must not contain the delimiter, unless the
    /// codec quotes it.
    pub account: String,
    /// Amount in minor currency units; negative values are debits.
    pub amount: i64,
    /// Short currency code, for example `USD`; neither length nor alphabet is
    /// validated here.
    pub currency: String,
}

/// The mathematical value of a [`Transaction`]: the same four fields, with
/// the text fields as sequences of characters.
#[verifier::ext_equal]
pub struct TransactionView {
    pub id: u64,
    pub account: Seq<char>,
    pub amount: i64,
    pub currency: Seq<char>,
}

impl View for Transaction {
    type V = TransactionView;

    open spec fn view(&self) -> TransactionView {
        TransactionView {
            id: self.id,
            account: self.account@,
            amount: self.amount,
            currency: self.currency@,
        }
    }
}

impl DeepView for Transaction {
    type V = TransactionView;

    open spec fn deep_view(&self) -> TransactionView {
        self@
    }
}

impl Transaction {
    /// Builds a transaction from the fields of one delimited record, in the
    /// order `id,account,amount,currency`.  Fields beyond the fourth are
    /// ignored; a missing field or an integer that does not parse yields
    /// the context-free validation error.
    pub fn from_csv_record(record: &[String]) -> (r: Result<Transaction, ParserError>)
        ensures
            match r {
                Ok(t) => csv_record_ok(record.deep_view()) && t@ == (TransactionView {
                    id: spec_parse_u64(record.deep_view()[0])->Some_0,
                    account: record.deep_view()[1],
                    amount: spec_parse_i64(record.deep_view()[2])->Some_0,
                    currency: record.deep_view()[3],
                }),
                Err(e) => !csv_record_ok(record.deep_view()) && e@ == ParserErrorView::InvalidCsv,
            },
    {
        let ghost dv = record.deep_view();
        proof {
            assert forall|k: int| 0 <= k < record@.len() implies record@[k]@ == #[trigger] dv[k] by {
                assert(record@[k].deep_view() =~= record@[k]@);
            }
        }
        if record.len() < 4 {
            return Err(ParserError::InvalidCsv);
        }
        let id_chars = chars_of(record[0].as_str());
        let id = match parse_u64_chars(id_chars.as_slice()) {
            Some(v) => v,
            None => {
                return Err(ParserError::InvalidCsv);
            },
        };
        let amount_chars = chars_of(record[2].as_str());
        let amount = match parse_i64_chars(amount_chars.as_slice()) {
            Some(v) => v,
            None => {
                return Err(ParserError::InvalidCsv);
            },
        };
        let account = record[1].clone();
        let currency = record[3].clone();
        Ok(Transaction { id, account, amount, currency })
    }
}

/// The text that describes one record, field by field.
pub open spec fn spec_describe(t: TransactionView) -> Seq<char> {
    "id: ["@ + dec_u64(t.id) + "], account: ["@ + t.account + "], currency: ["@ + t.currency
        + "], amount: ["@ + dec_i64(t.amount) + "]"@
}

impl Transaction {
    /// A human-readable description of the record.
    pub fn describe(&self) -> (s: String)
        ensures
            s@ == spec_describe(self@),
    {
        let mut out: Vec<char> = Vec::new();
        push_str_chars(&mut out, "id: [");
        push_u64_chars(&mut out, self.id);
        push_str_chars(&mut out, "], account: [");
        push_str_chars(&mut out, self.account.as_str());
        push_str_chars(&mut out, "], currency: [");
        push_str_chars(&mut out, self.currency.as_str());
        push_str_chars(&mut out, "], amount: [");
        push_i64_chars(&mut out, self.amount);
        push_str_chars(&mut out, "]");
        let s = string_from_chars(out.as_slice());
        proof {
            assert(s@ =~= spec_describe(self@));
        }
        s
    }
}

/// The length of the shorter of two sequences.
pub open spec fn spec_common_len(a: Seq<TransactionView>, b: Seq<TransactionView>) -> int {
    if a.len() <= b.len() {
        a.len() as int
    } else {
        b.len() as int
    }
}

/// The index of the first pairwise mismatch between two record sequences,
/// comparing in order up to the shorter sequence's length.  A length
/// difference alone is not reported.
pub fn first_mismatch(a: &Vec<Transaction>, b: &Vec<Transaction>) -> (r: Option<usize>)
    ensures
        ({
            let m = spec_common_len(a.deep_view(), b.deep_view());
            match r {
                Some(i) => 0 <= i < m && a.deep_view()[i as int] != b.deep_view()[i as int]
                    && forall|j: int|
                    0 <= j < i ==> a.deep_view()[j] =~= b.deep_view()[j],
                None => forall|j: int| 0 <= j < m ==> a.deep_view()[j] =~= b.deep_view()[j],
            }
        }),
{
    let m = if a.len() <= b.len() {
        a.len()
    } else {
        b.len()
    };
    let mut i: usize = 0;
    while i < m
        invariant
            i <= m,
            m == spec_common_len(a.deep_view(), b.deep_view()),
            a.deep_view().len() == a@.len(),
            b.deep_view().len() == b@.len(),
            forall|j: int| 0 <= j < i ==> a.deep_view()[j] =~= b.deep_view()[j],
        decreases m - i,
    {
        let same = a[i] == b[i];
        proof {
            assert(a.deep_view()[i as int] == a@[i as int]@);
            assert(b.deep_view()[i as int] == b@[i as int]@);
        }
        if !same {
            return Some(i);
        }
        i = i + 1;
    }
    None
}

impl PartialEq for Transaction {
    /// Two transactions are equal exactly when all four fields are equal.
    fn eq(&self, other: &Self) -> (r: bool) {
        self.id == other.id && self.account == other.account && self.currency == other.currency
            && self.amount == other.amount
    }
}

impl vstd::std_specs::cmp::PartialEqSpecImpl for Transaction {
    open spec fn obeys_eq_spec() -> bool {
        true
    }

    open spec fn eq_spec(&self, other: &Transaction) -> bool {
        self@ =~= other@
    }
}

impl Eq for Transaction {

}

} // verus!
