//! The delimited-field codec: comma-separated rows without a header, four
//! fields per record in the fixed order `id,account,amount,currency`.
//!
//! Decoding parses record by record with conventional quoting: a field
//! that begins with a double quote runs to the closing quote, a doubled
//! quote inside it stands for one quote character, and a quoted field may
//! contain commas and line breaks.  A framing fault — an unterminated
//! quote, a stray quote in a bare field, text after a closing quote, or
//! bytes that are not UTF-8 — is reported as the delimited-framing error;
//! a well-framed record that does not map onto a transaction is reported
//! as the context-free validation error.  Blank lines are skipped.
//! Encoding writes one row per record and quotes a field only when it
//! contains the delimiter, a quote or a line break.

use vstd::prelude::*;
use vstd::utf8::{decode_utf8, encode_utf8, valid_utf8};

use crate::errors::{ParserError, ParserErrorView};
use crate::models::{Transaction, TransactionView};
use crate::numbers::{dec_i64, dec_u64, push_i64_chars, push_u64_chars, spec_parse_i64, spec_parse_u64};
use crate::text::{chars_of, string_from_chars, utf8_to_str};
use crate::Format;

verus! {

/// A character that forces quoting: the delimiter, the quote, or a line
/// break.
pub open spec fn is_csv_special(c: char) -> bool {
    c == ',' || c == '"' || c == '\n' || c == '\r'
}

/// The parser's position inside a record.
pub enum CsvState {
    /// Before a field; nothing of it read yet.
    FieldStart,
    /// Inside a bare field.
    Unquoted,
    /// Inside a quoted field.
    Quoted,
    /// Right after the closing quote of a quoted field.
    QuoteEnd,
    /// Right after a carriage return that ended a record; a following
    /// line feed belongs to the same record end.
    AfterCr,
}

/// The transaction a structurally complete row maps onto: exactly four
/// fields, with the id and the amount parsing as integers.
pub open spec fn csv_row_tx(row: Seq<Seq<char>>) -> Option<TransactionView> {
    if row.len() == 4 && spec_parse_u64(row[0]) is Some && spec_parse_i64(row[2]) is Some {
        Some(
            TransactionView {
                id: spec_parse_u64(row[0])->Some_0,
                account: row[1],
                amount: spec_parse_i64(row[2])->Some_0,
                currency: row[3],
            },
        )
    } else {
        None
    }
}

/// Closing a record: the pending field joins the row, and the row must map
/// onto a transaction.
pub open spec fn csv_end_record(
    fields: Seq<Seq<char>>,
    cur: Seq<char>,
    txs: Seq<TransactionView>,
) -> Result<Seq<TransactionView>, ParserErrorView> {
    match csv_row_tx(fields.push(cur)) {
        None => Err(ParserErrorView::InvalidCsv),
        Some(t) => Ok(txs.push(t)),
    }
}

/// The record parser, one character at a time.  `cur` is the pending
/// field, `fields` the completed fields of the open record, and `txs` the
/// transactions of the records closed so far.
pub open spec fn csv_machine(
    s: Seq<char>,
    st: CsvState,
    cur: Seq<char>,
    fields: Seq<Seq<char>>,
    txs: Seq<TransactionView>,
) -> Result<Seq<TransactionView>, ParserErrorView>
    decreases s.len(),
{
    if s.len() == 0 {
        match st {
            CsvState::Quoted => Err(ParserErrorView::Csv),
            CsvState::FieldStart => if fields.len() == 0 {
                Ok(txs)
            } else {
                csv_end_record(fields, cur, txs)
            },
            CsvState::AfterCr => Ok(txs),
            CsvState::Unquoted => csv_end_record(fields, cur, txs),
            CsvState::QuoteEnd => csv_end_record(fields, cur, txs),
        }
    } else {
        let c = s[0];
        let rest = s.drop_first();
        match st {
            CsvState::FieldStart => {
                if c == ',' {
                    csv_machine(rest, CsvState::FieldStart, seq![], fields.push(seq![]), txs)
                } else if c == '"' {
                    csv_machine(rest, CsvState::Quoted, seq![], fields, txs)
                } else if c == '\n' || c == '\r' {
                    let nxt = if c == '\r' {
                        CsvState::AfterCr
                    } else {
                        CsvState::FieldStart
                    };
                    if fields.len() == 0 {
                        csv_machine(rest, nxt, seq![], seq![], txs)
                    } else {
                        match csv_end_record(fields, cur, txs) {
                            Err(e) => Err(e),
                            Ok(txs2) => csv_machine(rest, nxt, seq![], seq![], txs2),
                        }
                    }
                } else {
                    csv_machine(rest, CsvState::Unquoted, seq![c], fields, txs)
                }
            },
            CsvState::AfterCr => {
                if c == '\n' {
                    csv_machine(rest, CsvState::FieldStart, seq![], fields, txs)
                } else if c == ',' {
                    csv_machine(rest, CsvState::FieldStart, seq![], fields.push(seq![]), txs)
                } else if c == '"' {
                    csv_machine(rest, CsvState::Quoted, seq![], fields, txs)
                } else if c == '\r' {
                    if fields.len() == 0 {
                        csv_machine(rest, CsvState::AfterCr, seq![], seq![], txs)
                    } else {
                        match csv_end_record(fields, cur, txs) {
                            Err(e) => Err(e),
                            Ok(txs2) => csv_machine(rest, CsvState::AfterCr, seq![], seq![], txs2),
                        }
                    }
                } else {
                    csv_machine(rest, CsvState::Unquoted, seq![c], fields, txs)
                }
            },
            CsvState::Unquoted => {
                if c == ',' {
                    csv_machine(rest, CsvState::FieldStart, seq![], fields.push(cur), txs)
                } else if c == '"' {
                    Err(ParserErrorView::Csv)
                } else if c == '\n' || c == '\r' {
                    let nxt = if c == '\r' {
                        CsvState::AfterCr
                    } else {
                        CsvState::FieldStart
                    };
                    match csv_end_record(fields, cur, txs) {
                        Err(e) => Err(e),
                        Ok(txs2) => csv_machine(rest, nxt, seq![], seq![], txs2),
                    }
                } else {
                    csv_machine(rest, CsvState::Unquoted, cur.push(c), fields, txs)
                }
            },
            CsvState::Quoted => {
                if c == '"' {
                    csv_machine(rest, CsvState::QuoteEnd, cur, fields, txs)
                } else {
                    csv_machine(rest, CsvState::Quoted, cur.push(c), fields, txs)
                }
            },
            CsvState::QuoteEnd => {
                if c == '"' {
                    csv_machine(rest, CsvState::Quoted, cur.push('"'), fields, txs)
                } else if c == ',' {
                    csv_machine(rest, CsvState::FieldStart, seq![], fields.push(cur), txs)
                } else if c == '\n' || c == '\r' {
                    let nxt = if c == '\r' {
                        CsvState::AfterCr
                    } else {
                        CsvState::FieldStart
                    };
                    match csv_end_record(fields, cur, txs) {
                        Err(e) => Err(e),
                        Ok(txs2) => csv_machine(rest, nxt, seq![], seq![], txs2),
                    }
                } else {
                    Err(ParserErrorView::Csv)
                }
            },
        }
    }
}

/// What decoding a delimited stream yields.
pub open spec fn csv_spec_read(input: Seq<u8>) -> Result<Seq<TransactionView>, ParserErrorView> {
    if !valid_utf8(input) {
        Err(ParserErrorView::Csv)
    } else {
        csv_machine(decode_utf8(input), CsvState::FieldStart, seq![], seq![], seq![])
    }
}

/// Whether a field must be quoted when written.
pub open spec fn csv_needs_quote(f: Seq<char>) -> bool {
    exists|i: int| 0 <= i < f.len() && is_csv_special(#[trigger] f[i])
}

/// A field's content with every quote doubled.
pub open spec fn csv_escaped(f: Seq<char>) -> Seq<char>
    decreases f.len(),
{
    if f.len() == 0 {
        seq![]
    } else {
        (if f[0] == '"' {
            seq!['"', '"']
        } else {
            seq![f[0]]
        }) + csv_escaped(f.drop_first())
    }
}

/// A field as written: quoted and escaped exactly when it contains a
/// special character.
pub open spec fn csv_field_chars(f: Seq<char>) -> Seq<char> {
    if csv_needs_quote(f) {
        seq!['"'] + csv_escaped(f) + seq!['"']
    } else {
        f
    }
}

/// The encoded row of one record.
pub open spec fn csv_row_chars(t: TransactionView) -> Seq<char> {
    dec_u64(t.id) + seq![','] + csv_field_chars(t.account) + seq![','] + dec_i64(t.amount)
        + seq![','] + csv_field_chars(t.currency) + seq!['\n']
}

/// The encoded characters of a record sequence.
pub open spec fn csv_chars(txs: Seq<TransactionView>) -> Seq<char>
    decreases txs.len(),
{
    if txs.len() == 0 {
        seq![]
    } else {
        csv_row_chars(txs[0]) + csv_chars(txs.drop_first())
    }
}

/// What encoding yields: the UTF-8 bytes of the records' rows.  Writing to
/// a byte sink cannot fail.
pub open spec fn csv_spec_write(txs: Seq<TransactionView>) -> Result<Seq<u8>, ParserErrorView> {
    Ok(encode_utf8(csv_chars(txs)))
}

/// Appending one record extends the encoded characters by its row.
pub proof fn lemma_csv_chars_push(txs: Seq<TransactionView>, t: TransactionView)
    ensures
        csv_chars(txs + seq![t]) == csv_chars(txs) + csv_row_chars(t),
    decreases txs.len(),
{
    if txs.len() == 0 {
        assert((txs + seq![t])[0] == t);
        assert((txs + seq![t]).drop_first() =~= Seq::<TransactionView>::empty());
        assert(csv_chars(Seq::<TransactionView>::empty()) == Seq::<char>::empty());
        assert(csv_chars(txs + seq![t]) =~= csv_chars(txs) + csv_row_chars(t));
    } else {
        assert((txs + seq![t])[0] == txs[0]);
        assert((txs + seq![t]).drop_first() =~= txs.drop_first() + seq![t]);
        lemma_csv_chars_push(txs.drop_first(), t);
        assert(csv_chars(txs + seq![t]) =~= csv_chars(txs) + csv_row_chars(t));
    }
}

/// One more character extends the escaped text by that character, doubled
/// when it is a quote.
pub proof fn lemma_csv_escaped_push(f: Seq<char>, c: char)
    ensures
        csv_escaped(f + seq![c]) == csv_escaped(f) + (if c == '"' {
            seq!['"', '"']
        } else {
            seq![c]
        }),
    decreases f.len(),
{
    if f.len() == 0 {
        assert((f + seq![c])[0] == c);
        assert((f + seq![c]).drop_first() =~= Seq::<char>::empty());
        assert(csv_escaped(Seq::<char>::empty()) == Seq::<char>::empty());
        assert(csv_escaped(f + seq![c]) =~= csv_escaped(f) + (if c == '"' {
            seq!['"', '"']
        } else {
            seq![c]
        }));
    } else {
        assert((f + seq![c])[0] == f[0]);
        assert((f + seq![c]).drop_first() =~= f.drop_first() + seq![c]);
        lemma_csv_escaped_push(f.drop_first(), c);
        assert(csv_escaped(f + seq![c]) =~= csv_escaped(f) + (if c == '"' {
            seq!['"', '"']
        } else {
            seq![c]
        }));
    }
}

/// Appends one field, quoted exactly when needed.
fn push_csv_field(out: &mut Vec<char>, f: &str)
    ensures
        final(out)@ == old(out)@ + csv_field_chars(f@),
{
    let cs = chars_of(f);
    let n = cs.len();
    let mut needs = false;
    let mut i: usize = 0;
    proof {
        assert(cs@.subrange(0, 0) =~= Seq::<char>::empty());
    }
    while i < n
        invariant
            i <= n,
            n == cs@.len(),
            needs == csv_needs_quote(cs@.subrange(0, i as int)),
        decreases n - i,
    {
        let c = cs[i];
        if c == ',' || c == '"' || c == '\n' || c == '\r' {
            needs = true;
        }
        proof {
            let pre = cs@.subrange(0, i as int);
            let pre1 = cs@.subrange(0, i + 1 as int);
            assert(pre1 =~= pre.push(cs@[i as int]));
            if csv_needs_quote(pre) {
                let j = choose|j: int| 0 <= j < pre.len() && is_csv_special(#[trigger] pre[j]);
                assert(pre1[j] == pre[j]);
                assert(csv_needs_quote(pre1));
            }
            if is_csv_special(cs@[i as int]) {
                assert(pre1[i as int] == cs@[i as int]);
                assert(csv_needs_quote(pre1));
            }
            if csv_needs_quote(pre1) && !csv_needs_quote(pre) && !is_csv_special(
                cs@[i as int],
            ) {
                let j = choose|j: int|
                    0 <= j < pre1.len() && is_csv_special(#[trigger] pre1[j]);
                if j < i {
                    assert(pre[j] == pre1[j]);
                    assert(csv_needs_quote(pre));
                } else {
                    assert(pre1[j] == cs@[i as int]);
                }
                assert(false);
            }
        }
        i = i + 1;
    }
    proof {
        assert(cs@.subrange(0, n as int) =~= cs@);
    }
    if !needs {
        out.extend_from_slice(cs.as_slice());
        return ;
    }
    out.push('"');
    let ghost base = out@;
    let mut i: usize = 0;
    proof {
        assert(cs@.subrange(0, 0) =~= Seq::<char>::empty());
        assert(out@ =~= base + csv_escaped(cs@.subrange(0, 0)));
    }
    while i < n
        invariant
            i <= n,
            n == cs@.len(),
            out@ == base + csv_escaped(cs@.subrange(0, i as int)),
        decreases n - i,
    {
        let c = cs[i];
        if c == '"' {
            out.push('"');
            out.push('"');
        } else {
            out.push(c);
        }
        proof {
            assert(cs@.subrange(0, i + 1 as int) =~= cs@.subrange(0, i as int) + seq![
                cs@[i as int],
            ]);
            lemma_csv_escaped_push(cs@.subrange(0, i as int), cs@[i as int]);
            assert(out@ =~= base + csv_escaped(cs@.subrange(0, i + 1 as int)));
        }
        i = i + 1;
    }
    proof {
        assert(cs@.subrange(0, n as int) =~= cs@);
    }
    out.push('"');
    proof {
        assert(out@ =~= old(out)@ + csv_field_chars(f@));
    }
}

/// Closes the open record: the pending field joins the row, the row must
/// have exactly four fields that map onto a transaction, and the record
/// and field buffers are cleared for the next record.
fn csv_finish(fields: &mut Vec<String>, cur: &mut Vec<char>, txs: &mut Vec<Transaction>) -> (r:
    Result<(), ParserError>)
    ensures
        match csv_end_record(old(fields).deep_view(), old(cur)@, old(txs).deep_view()) {
            Ok(ts) => r is Ok && final(txs).deep_view() == ts && final(fields)@.len() == 0
                && final(cur)@.len() == 0,
            Err(e) => r matches Err(x) && x@ == e,
        },
{
    let field = string_from_chars(cur.as_slice());
    let ghost fdv0 = fields.deep_view();
    fields.push(field);
    proof {
        assert(fields.deep_view() =~= fdv0.push(old(cur)@));
    }
    if fields.len() != 4 {
        return Err(ParserError::InvalidCsv);
    }
    let fs = fields.as_slice();
    proof {
        assert(fs.deep_view() =~= fields.deep_view());
    }
    match Transaction::from_csv_record(fs) {
        Ok(t) => {
            let ghost tdv0 = txs.deep_view();
            proof {
                assert(csv_row_tx(fields.deep_view()) == Some(t@));
            }
            txs.push(t);
            proof {
                assert(txs.deep_view() =~= tdv0.push(
                    csv_row_tx(fdv0.push(old(cur)@))->Some_0,
                ));
            }
            fields.clear();
            cur.clear();
            Ok(())
        },
        Err(e) => {
            proof {
                assert(csv_row_tx(fields.deep_view()) is None);
            }
            Err(e)
        },
    }
}

/// No character of a numeral needs quoting.
pub proof fn lemma_dec_u64_plain(n: u64)
    ensures
        !csv_needs_quote(dec_u64(n)),
        dec_u64(n).len() >= 1,
{
    crate::numbers::lemma_dec_digits_shape(n as nat);
    assert forall|i: int| 0 <= i < dec_u64(n).len() implies !is_csv_special(
        #[trigger] dec_u64(n)[i],
    ) by {
        assert(crate::numbers::is_digit(dec_u64(n)[i]));
    }
}

/// No character of a signed numeral needs quoting.
pub proof fn lemma_dec_i64_plain(n: i64)
    ensures
        !csv_needs_quote(dec_i64(n)),
        dec_i64(n).len() >= 1,
{
    if n >= 0 {
        crate::numbers::lemma_dec_digits_shape(n as nat);
        assert forall|i: int| 0 <= i < dec_i64(n).len() implies !is_csv_special(
            #[trigger] dec_i64(n)[i],
        ) by {
            assert(crate::numbers::is_digit(dec_i64(n)[i]));
        }
    } else {
        let m = (0 - n as int) as nat;
        crate::numbers::lemma_dec_digits_shape(m);
        assert forall|i: int| 0 <= i < dec_i64(n).len() implies !is_csv_special(
            #[trigger] dec_i64(n)[i],
        ) by {
            if i > 0 {
                assert(dec_i64(n)[i] == crate::numbers::dec_digits(m)[i - 1]);
                assert(crate::numbers::is_digit(dec_i64(n)[i]));
            }
        }
    }
}

/// Feeding characters that need no quoting grows the pending bare field.
pub proof fn lemma_csv_unquoted_feed(
    f: Seq<char>,
    s: Seq<char>,
    cur: Seq<char>,
    fields: Seq<Seq<char>>,
    txs: Seq<TransactionView>,
)
    requires
        forall|i: int| 0 <= i < f.len() ==> !is_csv_special(#[trigger] f[i]),
    ensures
        csv_machine(f + s, CsvState::Unquoted, cur, fields, txs) == csv_machine(
            s,
            CsvState::Unquoted,
            cur + f,
            fields,
            txs,
        ),
    decreases f.len(),
{
    if f.len() == 0 {
        assert(f + s =~= s);
        assert(cur + f =~= cur);
    } else {
        assert((f + s)[0] == f[0]);
        assert((f + s).drop_first() =~= f.drop_first() + s);
        lemma_csv_unquoted_feed(f.drop_first(), s, cur.push(f[0]), fields, txs);
        assert(cur.push(f[0]) + f.drop_first() =~= cur + f);
    }
}

/// Feeding the escaped text of a field grows the pending quoted field by
/// the field itself.
pub proof fn lemma_csv_quoted_feed(
    f: Seq<char>,
    s: Seq<char>,
    cur: Seq<char>,
    fields: Seq<Seq<char>>,
    txs: Seq<TransactionView>,
)
    ensures
        csv_machine(csv_escaped(f) + s, CsvState::Quoted, cur, fields, txs) == csv_machine(
            s,
            CsvState::Quoted,
            cur + f,
            fields,
            txs,
        ),
    decreases f.len(),
{
    if f.len() == 0 {
        assert(csv_escaped(f) + s =~= s);
        assert(cur + f =~= cur);
    } else if f[0] == '"' {
        let e = csv_escaped(f) + s;
        assert(csv_escaped(f) =~= seq!['"', '"'] + csv_escaped(f.drop_first()));
        assert(e[0] == '"');
        assert(csv_machine(e, CsvState::Quoted, cur, fields, txs) == csv_machine(
            e.drop_first(),
            CsvState::QuoteEnd,
            cur,
            fields,
            txs,
        ));
        assert(e.drop_first()[0] == '"');
        assert(csv_machine(e.drop_first(), CsvState::QuoteEnd, cur, fields, txs) == csv_machine(
            e.drop_first().drop_first(),
            CsvState::Quoted,
            cur.push('"'),
            fields,
            txs,
        ));
        assert(e.drop_first().drop_first() =~= csv_escaped(f.drop_first()) + s);
        lemma_csv_quoted_feed(f.drop_first(), s, cur.push('"'), fields, txs);
        assert(csv_machine(e.drop_first().drop_first(), CsvState::Quoted, cur.push('"'), fields, txs)
            == csv_machine(s, CsvState::Quoted, cur.push('"') + f.drop_first(), fields, txs));
        assert(cur.push('"') + f.drop_first() =~= cur + f);
    } else {
        let e = csv_escaped(f) + s;
        assert(csv_escaped(f) =~= seq![f[0]] + csv_escaped(f.drop_first()));
        assert(e[0] == f[0]);
        assert(csv_machine(e, CsvState::Quoted, cur, fields, txs) == csv_machine(
            e.drop_first(),
            CsvState::Quoted,
            cur.push(f[0]),
            fields,
            txs,
        ));
        assert(e.drop_first() =~= csv_escaped(f.drop_first()) + s);
        lemma_csv_quoted_feed(f.drop_first(), s, cur.push(f[0]), fields, txs);
        assert(csv_machine(e.drop_first(), CsvState::Quoted, cur.push(f[0]), fields, txs)
            == csv_machine(s, CsvState::Quoted, cur.push(f[0]) + f.drop_first(), fields, txs));
        assert(cur.push(f[0]) + f.drop_first() =~= cur + f);
    }
}

/// An encoded field followed by a comma completes exactly that field.
pub proof fn lemma_csv_field_comma(
    f: Seq<char>,
    s: Seq<char>,
    fields: Seq<Seq<char>>,
    txs: Seq<TransactionView>,
)
    ensures
        csv_machine(
            csv_field_chars(f) + (seq![','] + s),
            CsvState::FieldStart,
            seq![],
            fields,
            txs,
        ) == csv_machine(s, CsvState::FieldStart, seq![], fields.push(f), txs),
{
    let w = csv_field_chars(f) + (seq![','] + s);
    let m = seq![','] + s;
    assert(m[0] == ',');
    assert(m.drop_first() =~= s);
    if csv_needs_quote(f) {
        let q = seq!['"'] + m;
        assert(w[0] == '"');
        assert(csv_machine(w, CsvState::FieldStart, seq![], fields, txs) == csv_machine(
            w.drop_first(),
            CsvState::Quoted,
            seq![],
            fields,
            txs,
        ));
        assert(w.drop_first() =~= csv_escaped(f) + q);
        lemma_csv_quoted_feed(f, q, seq![], fields, txs);
        assert(Seq::<char>::empty() + f =~= f);
        assert(csv_machine(w.drop_first(), CsvState::Quoted, seq![], fields, txs)
            == csv_machine(q, CsvState::Quoted, f, fields, txs));
        assert(q[0] == '"');
        assert(q.drop_first() =~= m);
        assert(csv_machine(q, CsvState::Quoted, f, fields, txs) == csv_machine(
            m,
            CsvState::QuoteEnd,
            f,
            fields,
            txs,
        ));
        assert(csv_machine(m, CsvState::QuoteEnd, f, fields, txs) == csv_machine(
            s,
            CsvState::FieldStart,
            seq![],
            fields.push(f),
            txs,
        ));
    } else {
        assert forall|i: int| 0 <= i < f.len() implies !is_csv_special(#[trigger] f[i]) by {
            if is_csv_special(f[i]) {
                assert(csv_needs_quote(f));
            }
        }
        if f.len() == 0 {
            assert(w =~= m);
            assert(f =~= Seq::<char>::empty());
            assert(csv_machine(w, CsvState::FieldStart, seq![], fields, txs) == csv_machine(
                s,
                CsvState::FieldStart,
                seq![],
                fields.push(f),
                txs,
            ));
        } else {
            assert(w[0] == f[0]);
            assert(!is_csv_special(f[0]));
            assert(csv_machine(w, CsvState::FieldStart, seq![], fields, txs) == csv_machine(
                w.drop_first(),
                CsvState::Unquoted,
                seq![f[0]],
                fields,
                txs,
            ));
            assert(w.drop_first() =~= f.drop_first() + m);
            lemma_csv_unquoted_feed(f.drop_first(), m, seq![f[0]], fields, txs);
            assert(seq![f[0]] + f.drop_first() =~= f);
            assert(csv_machine(w.drop_first(), CsvState::Unquoted, seq![f[0]], fields, txs)
                == csv_machine(m, CsvState::Unquoted, f, fields, txs));
            assert(csv_machine(m, CsvState::Unquoted, f, fields, txs) == csv_machine(
                s,
                CsvState::FieldStart,
                seq![],
                fields.push(f),
                txs,
            ));
        }
    }
}

/// An encoded field followed by a newline completes the open record.
pub proof fn lemma_csv_field_newline(
    f: Seq<char>,
    s: Seq<char>,
    fields: Seq<Seq<char>>,
    txs: Seq<TransactionView>,
)
    requires
        fields.len() > 0,
    ensures
        csv_machine(
            csv_field_chars(f) + (seq!['\n'] + s),
            CsvState::FieldStart,
            seq![],
            fields,
            txs,
        ) == (match csv_end_record(fields, f, txs) {
            Err(e) => Err(e),
            Ok(t2) => csv_machine(s, CsvState::FieldStart, seq![], seq![], t2),
        }),
{
    let w = csv_field_chars(f) + (seq!['\n'] + s);
    let m = seq!['\n'] + s;
    assert(m[0] == '\n');
    assert(m.drop_first() =~= s);
    let ghost goal = (match csv_end_record(fields, f, txs) {
        Err(e) => Err(e),
        Ok(t2) => csv_machine(s, CsvState::FieldStart, seq![], seq![], t2),
    });
    if csv_needs_quote(f) {
        let q = seq!['"'] + m;
        assert(w[0] == '"');
        assert(csv_machine(w, CsvState::FieldStart, seq![], fields, txs) == csv_machine(
            w.drop_first(),
            CsvState::Quoted,
            seq![],
            fields,
            txs,
        ));
        assert(w.drop_first() =~= csv_escaped(f) + q);
        lemma_csv_quoted_feed(f, q, seq![], fields, txs);
        assert(Seq::<char>::empty() + f =~= f);
        assert(csv_machine(w.drop_first(), CsvState::Quoted, seq![], fields, txs)
            == csv_machine(q, CsvState::Quoted, f, fields, txs));
        assert(q[0] == '"');
        assert(q.drop_first() =~= m);
        assert(csv_machine(q, CsvState::Quoted, f, fields, txs) == csv_machine(
            m,
            CsvState::QuoteEnd,
            f,
            fields,
            txs,
        ));
        assert(csv_machine(m, CsvState::QuoteEnd, f, fields, txs) == goal);
    } else {
        assert forall|i: int| 0 <= i < f.len() implies !is_csv_special(#[trigger] f[i]) by {
            if is_csv_special(f[i]) {
                assert(csv_needs_quote(f));
            }
        }
        if f.len() == 0 {
            assert(w =~= m);
            assert(f =~= Seq::<char>::empty());
            assert(csv_machine(w, CsvState::FieldStart, seq![], fields, txs) == goal);
        } else {
            assert(w[0] == f[0]);
            assert(!is_csv_special(f[0]));
            assert(csv_machine(w, CsvState::FieldStart, seq![], fields, txs) == csv_machine(
                w.drop_first(),
                CsvState::Unquoted,
                seq![f[0]],
                fields,
                txs,
            ));
            assert(w.drop_first() =~= f.drop_first() + m);
            lemma_csv_unquoted_feed(f.drop_first(), m, seq![f[0]], fields, txs);
            assert(seq![f[0]] + f.drop_first() =~= f);
            assert(csv_machine(w.drop_first(), CsvState::Unquoted, seq![f[0]], fields, txs)
                == csv_machine(m, CsvState::Unquoted, f, fields, txs));
            assert(csv_machine(m, CsvState::Unquoted, f, fields, txs) == goal);
        }
    }
}

/// An encoded row completes exactly its record.
pub proof fn lemma_csv_row(t: TransactionView, s: Seq<char>, txs: Seq<TransactionView>)
    ensures
        csv_machine(csv_row_chars(t) + s, CsvState::FieldStart, seq![], seq![], txs)
            == csv_machine(s, CsvState::FieldStart, seq![], seq![], txs.push(t)),
{
    let d1 = dec_u64(t.id);
    let d2 = dec_i64(t.amount);
    lemma_dec_u64_plain(t.id);
    lemma_dec_i64_plain(t.amount);
    assert(csv_field_chars(d1) == d1);
    assert(csv_field_chars(d2) == d2);
    let x3: Seq<char> = csv_field_chars(t.currency) + (seq!['\n'] + s);
    let x2: Seq<char> = d2 + (seq![','] + x3);
    let x1: Seq<char> = csv_field_chars(t.account) + (seq![','] + x2);
    assert(csv_row_chars(t) + s =~= d1 + (seq![','] + x1));
    lemma_csv_field_comma(d1, x1, seq![], txs);
    assert(Seq::<Seq<char>>::empty().push(d1) =~= seq![d1]);
    lemma_csv_field_comma(t.account, x2, seq![d1], txs);
    assert(seq![d1].push(t.account) =~= seq![d1, t.account]);
    lemma_csv_field_comma(d2, x3, seq![d1, t.account], txs);
    assert(seq![d1, t.account].push(d2) =~= seq![d1, t.account, d2]);
    lemma_csv_field_newline(t.currency, s, seq![d1, t.account, d2], txs);
    let row = seq![d1, t.account, d2].push(t.currency);
    assert(row =~= seq![d1, t.account, d2, t.currency]);
    crate::numbers::lemma_parse_u64_round(t.id);
    crate::numbers::lemma_parse_i64_round(t.amount);
    assert(csv_row_tx(row) matches Some(x) && x =~= t);
    assert(csv_end_record(seq![d1, t.account, d2], t.currency, txs) == Ok::<
        Seq<TransactionView>,
        ParserErrorView,
    >(txs.push(t)));
}

/// The rows of an encoded sequence decode back to the records, whatever
/// was decoded before them.
pub proof fn lemma_csv_chars_parse(txs: Seq<TransactionView>, acc: Seq<TransactionView>)
    ensures
        csv_machine(csv_chars(txs), CsvState::FieldStart, seq![], seq![], acc) == Ok::<
            Seq<TransactionView>,
            ParserErrorView,
        >(acc + txs),
    decreases txs.len(),
{
    if txs.len() == 0 {
        assert(acc + txs =~= acc);
    } else {
        let t = txs[0];
        assert(csv_chars(txs) =~= csv_row_chars(t) + csv_chars(txs.drop_first()));
        lemma_csv_row(t, csv_chars(txs.drop_first()), acc);
        lemma_csv_chars_parse(txs.drop_first(), acc.push(t));
        assert(acc.push(t) + txs.drop_first() =~= acc + txs);
    }
}

/// The round-trip law of the delimited codec: decoding an encoded sequence
/// yields the sequence itself, for every sequence.  Quoting makes any
/// field content safe to carry.
pub proof fn lemma_csv_round_trip(txs: Seq<TransactionView>)
    ensures
        csv_spec_write(txs) matches Ok(b) && csv_spec_read(b) == Ok::<
            Seq<TransactionView>,
            ParserErrorView,
        >(txs),
{
    let chars = csv_chars(txs);
    vstd::utf8::encode_utf8_valid_utf8(chars);
    vstd::utf8::encode_utf8_decode_utf8(chars);
    lemma_csv_chars_parse(txs, seq![]);
    assert(Seq::<TransactionView>::empty() + txs =~= txs);
}

/// The idempotence law of the delimited codec: re-encoding a decoded
/// sequence and decoding again yields the same sequence.
pub proof fn lemma_csv_idempotent(input: Seq<u8>)
    requires
        csv_spec_read(input) is Ok,
    ensures
        csv_spec_write(csv_spec_read(input)->Ok_0) matches Ok(b2) && csv_spec_read(b2)
            == csv_spec_read(input),
{
    lemma_csv_round_trip(csv_spec_read(input)->Ok_0);
}

/// The comma-delimited codec.
pub struct Csv;

impl Format for Csv {
    open spec fn spec_read(input: Seq<u8>) -> Result<Seq<TransactionView>, ParserErrorView> {
        csv_spec_read(input)
    }

    open spec fn spec_write(txs: Seq<TransactionView>) -> Result<Seq<u8>, ParserErrorView> {
        csv_spec_write(txs)
    }

    fn read(input: &[u8]) -> (r: Result<Vec<Transaction>, ParserError>) {
        let s = match utf8_to_str(input) {
            Some(s) => s,
            None => {
                return Err(ParserError::Csv);
            },
        };
        proof {
            vstd::utf8::encode_utf8_decode_utf8(s@);
            assert(s@ == decode_utf8(input@));
        }
        let chars = chars_of(s);
        let n = chars.len();
        let mut st = CsvState::FieldStart;
        let mut cur: Vec<char> = Vec::new();
        let mut fields: Vec<String> = Vec::new();
        let mut txs: Vec<Transaction> = Vec::new();
        let mut i: usize = 0;
        proof {
            assert(chars@.subrange(0, n as int) =~= chars@);
            assert(cur@ =~= Seq::<char>::empty());
            assert(fields.deep_view() =~= Seq::<Seq<char>>::empty());
            assert(txs.deep_view() =~= Seq::<TransactionView>::empty());
        }
        while i < n
            invariant
                i <= n,
                n == chars@.len(),
                valid_utf8(input@),
                chars@ == decode_utf8(input@),
                csv_spec_read(input@) == csv_machine(
                    chars@.subrange(i as int, n as int),
                    st,
                    cur@,
                    fields.deep_view(),
                    txs.deep_view(),
                ),
                (st matches CsvState::FieldStart || st matches CsvState::AfterCr) ==> cur@.len()
                    == 0,
            decreases n - i,
        {
            let ghost rest = chars@.subrange(i as int, n as int);
            let ghost cur0 = cur@;
            let ghost fdv0 = fields.deep_view();
            let ghost tdv0 = txs.deep_view();
            proof {
                assert(rest[0] == chars@[i as int]);
                assert(rest.drop_first() =~= chars@.subrange(i + 1 as int, n as int));
            }
            let c = chars[i];
            match st {
                CsvState::FieldStart | CsvState::AfterCr => {
                    let after_cr = match st {
                        CsvState::AfterCr => true,
                        _ => false,
                    };
                    proof {
                        assert(cur@ =~= Seq::<char>::empty());
                    }
                    if after_cr && c == '\n' {
                        st = CsvState::FieldStart;
                    } else if c == ',' {
                        let ghost f0 = fields.deep_view();
                        fields.push(String::new());
                        proof {
                            assert(fields.deep_view() =~= f0.push(Seq::<char>::empty()));
                        }
                        st = CsvState::FieldStart;
                    } else if c == '"' {
                        st = CsvState::Quoted;
                    } else if c == '\n' || c == '\r' {
                        let nxt = if c == '\r' {
                            CsvState::AfterCr
                        } else {
                            CsvState::FieldStart
                        };
                        if fields.len() == 0 {
                            proof {
                                assert(fields.deep_view() =~= Seq::<Seq<char>>::empty());
                            }
                            st = nxt;
                        } else {
                            match csv_finish(&mut fields, &mut cur, &mut txs) {
                                Ok(u) => {
                                    proof {
                                        assert(fields.deep_view() =~= Seq::<Seq<char>>::empty());
                                        assert(cur@ =~= Seq::<char>::empty());
                                    }
                                    st = nxt;
                                },
                                Err(e) => {
                                    return Err(e);
                                },
                            }
                        }
                    } else {
                        cur.push(c);
                        proof {
                            assert(cur@ =~= seq![chars@[i as int]]);
                        }
                        st = CsvState::Unquoted;
                    }
                },
                CsvState::Unquoted => {
                    if c == ',' {
                        let ghost f0 = fields.deep_view();
                        let field = string_from_chars(cur.as_slice());
                        fields.push(field);
                        cur.clear();
                        proof {
                            assert(fields.deep_view() =~= f0.push(cur0));
                            assert(cur@ =~= Seq::<char>::empty());
                        }
                        st = CsvState::FieldStart;
                    } else if c == '"' {
                        return Err(ParserError::Csv);
                    } else if c == '\n' || c == '\r' {
                        let nxt = if c == '\r' {
                            CsvState::AfterCr
                        } else {
                            CsvState::FieldStart
                        };
                        match csv_finish(&mut fields, &mut cur, &mut txs) {
                            Ok(u) => {
                                proof {
                                    assert(fields.deep_view() =~= Seq::<Seq<char>>::empty());
                                    assert(cur@ =~= Seq::<char>::empty());
                                }
                                st = nxt;
                            },
                            Err(e) => {
                                return Err(e);
                            },
                        }
                    } else {
                        cur.push(c);
                    }
                },
                CsvState::Quoted => {
                    if c == '"' {
                        st = CsvState::QuoteEnd;
                    } else {
                        cur.push(c);
                    }
                },
                CsvState::QuoteEnd => {
                    if c == '"' {
                        cur.push('"');
                        st = CsvState::Quoted;
                    } else if c == ',' {
                        let ghost f0 = fields.deep_view();
                        let field = string_from_chars(cur.as_slice());
                        fields.push(field);
                        cur.clear();
                        proof {
                            assert(fields.deep_view() =~= f0.push(cur0));
                            assert(cur@ =~= Seq::<char>::empty());
                        }
                        st = CsvState::FieldStart;
                    } else if c == '\n' || c == '\r' {
                        let nxt = if c == '\r' {
                            CsvState::AfterCr
                        } else {
                            CsvState::FieldStart
                        };
                        match csv_finish(&mut fields, &mut cur, &mut txs) {
                            Ok(u) => {
                                proof {
                                    assert(fields.deep_view() =~= Seq::<Seq<char>>::empty());
                                    assert(cur@ =~= Seq::<char>::empty());
                                }
                                st = nxt;
                            },
                            Err(e) => {
                                return Err(e);
                            },
                        }
                    } else {
                        return Err(ParserError::Csv);
                    }
                },
            }
            i = i + 1;
        }
        proof {
            assert(chars@.subrange(n as int, n as int) =~= Seq::<char>::empty());
        }
        match st {
            CsvState::Quoted => Err(ParserError::Csv),
            CsvState::FieldStart => {
                if fields.len() == 0 {
                    Ok(txs)
                } else {
                    match csv_finish(&mut fields, &mut cur, &mut txs) {
                        Ok(u) => Ok(txs),
                        Err(e) => Err(e),
                    }
                }
            },
            CsvState::AfterCr => Ok(txs),
            CsvState::Unquoted | CsvState::QuoteEnd => {
                match csv_finish(&mut fields, &mut cur, &mut txs) {
                    Ok(u) => Ok(txs),
                    Err(e) => Err(e),
                }
            },
        }
    }

    fn write(writer: &mut Vec<u8>, transactions: &[Transaction]) -> (r: Result<
        (),
        ParserError,
    >) {
        let ghost dv = transactions.deep_view();
        let mut out: Vec<char> = Vec::new();
        let n = transactions.len();
        let mut i: usize = 0;
        proof {
            assert(dv.subrange(0, 0) =~= Seq::<TransactionView>::empty());
        }
        while i < n
            invariant
                i <= n,
                n == transactions@.len(),
                dv == transactions.deep_view(),
                dv.len() == n,
                out@ == csv_chars(dv.subrange(0, i as int)),
            decreases n - i,
        {
            let t = &transactions[i];
            proof {
                assert(t@ == dv[i as int]);
            }
            push_u64_chars(&mut out, t.id);
            out.push(',');
            push_csv_field(&mut out, t.account.as_str());
            out.push(',');
            push_i64_chars(&mut out, t.amount);
            out.push(',');
            push_csv_field(&mut out, t.currency.as_str());
            out.push('\n');
            proof {
                assert(dv.subrange(0, i + 1 as int) =~= dv.subrange(0, i as int) + seq![
                    dv[i as int],
                ]);
                lemma_csv_chars_push(dv.subrange(0, i as int), dv[i as int]);
                assert(out@ =~= csv_chars(dv.subrange(0, i as int)) + csv_row_chars(
                    dv[i as int],
                ));
            }
            i = i + 1;
        }
        proof {
            assert(dv.subrange(0, n as int) =~= dv);
        }
        let s = string_from_chars(out.as_slice());
        let bytes = vstd::string::StrSliceExecFns::as_bytes_vec(s.as_str());
        writer.extend_from_slice(bytes.as_slice());
        Ok(())
    }
}

} // verus!
