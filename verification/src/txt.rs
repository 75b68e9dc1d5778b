//! The text-line codec: one record per line, fields separated by runs of
//! whitespace, in the fixed order `id account amount currency`.
//!
//! Decoding requires exactly four fields per line and integer fields that
//! parse; any violation names the offending field, the 1-based line number
//! and the line itself.  Encoding joins the four fields with single spaces
//! and terminates each record with a newline; it performs no escaping, so
//! round trips are only guaranteed for fields that are non-empty and free
//! of whitespace.

use vstd::prelude::*;
use vstd::utf8::{decode_utf8, encode_utf8, valid_utf8};

use crate::errors::{ParserError, ParserErrorView};
use crate::models::{Transaction, TransactionView};
use crate::numbers::{
    dec_i64, dec_u64, is_digit, push_i64_chars, push_u64_chars, spec_parse_i64, spec_parse_u64,
    parse_i64_chars, parse_u64_chars,
};
use crate::text::{chars_of, push_str_chars, string_from_chars, utf8_to_str};
use crate::Format;

verus! {

/// Whitespace as `char::is_whitespace` defines it: the characters with the
/// Unicode `White_Space` property.
pub open spec fn is_wspace(c: char) -> bool {
    c == ' ' || c == '\t' || c == '\n' || c == '\u{0b}' || c == '\u{0c}' || c == '\r' || c
        == '\u{85}' || c == '\u{a0}' || c == '\u{1680}' || c == '\u{2000}' || c == '\u{2001}' || c
        == '\u{2002}' || c == '\u{2003}' || c == '\u{2004}' || c == '\u{2005}' || c == '\u{2006}'
        || c == '\u{2007}' || c == '\u{2008}' || c == '\u{2009}' || c == '\u{200a}' || c
        == '\u{2028}' || c == '\u{2029}' || c == '\u{202f}' || c == '\u{205f}' || c == '\u{3000}'
}

/// Whitespace test on one character, as `char::is_whitespace` decides it.
pub fn is_wspace_char(c: char) -> (b: bool)
    ensures
        b == is_wspace(c),
{
    c == ' ' || c == '\t' || c == '\n' || c == '\u{0b}' || c == '\u{0c}' || c == '\r' || c
        == '\u{85}' || c == '\u{a0}' || c == '\u{1680}' || c == '\u{2000}' || c == '\u{2001}' || c
        == '\u{2002}' || c == '\u{2003}' || c == '\u{2004}' || c == '\u{2005}' || c == '\u{2006}'
        || c == '\u{2007}' || c == '\u{2008}' || c == '\u{2009}' || c == '\u{200a}' || c
        == '\u{2028}' || c == '\u{2029}' || c == '\u{202f}' || c == '\u{205f}' || c == '\u{3000}'
}

/// A line-terminating carriage return is dropped.
pub open spec fn strip_cr(line: Seq<char>) -> Seq<char> {
    if line.len() > 0 && line.last() == '\r' {
        line.drop_last()
    } else {
        line
    }
}

/// Splitting into lines, one character at a time: `cur` is the line read so
/// far.  A newline ends the line and strips a final carriage return; input
/// ending without a newline yields the open line as it stands, and input
/// ending right after a newline yields no further line.
pub open spec fn lines_acc(s: Seq<char>, cur: Seq<char>) -> Seq<Seq<char>>
    decreases s.len(),
{
    if s.len() == 0 {
        if cur.len() == 0 {
            seq![]
        } else {
            seq![cur]
        }
    } else if s[0] == '\n' {
        seq![strip_cr(cur)] + lines_acc(s.drop_first(), seq![])
    } else {
        lines_acc(s.drop_first(), cur.push(s[0]))
    }
}

/// The lines of a character stream, as line-oriented reading yields them.
pub open spec fn spec_lines(s: Seq<char>) -> Seq<Seq<char>> {
    lines_acc(s, seq![])
}

/// Splitting a line into whitespace-separated tokens, one character at a
/// time: `cur` is the token read so far, and empty tokens are skipped.
pub open spec fn tokens_acc(s: Seq<char>, cur: Seq<char>) -> Seq<Seq<char>>
    decreases s.len(),
{
    if s.len() == 0 {
        if cur.len() == 0 {
            seq![]
        } else {
            seq![cur]
        }
    } else if is_wspace(s[0]) {
        if cur.len() == 0 {
            tokens_acc(s.drop_first(), seq![])
        } else {
            seq![cur] + tokens_acc(s.drop_first(), seq![])
        }
    } else {
        tokens_acc(s.drop_first(), cur.push(s[0]))
    }
}

/// The whitespace-separated tokens of a line.
pub open spec fn spec_tokens(s: Seq<char>) -> Seq<Seq<char>> {
    tokens_acc(s, seq![])
}

/// The lines of a character slice.
fn split_lines(chars: &[char]) -> (lines: Vec<Vec<char>>)
    ensures
        lines.deep_view() == spec_lines(chars@),
{
    let n = chars.len();
    let mut lines: Vec<Vec<char>> = Vec::new();
    let mut cur: Vec<char> = Vec::new();
    let mut i: usize = 0;
    proof {
        assert(chars@.subrange(0, n as int) =~= chars@);
        assert(lines.deep_view() =~= Seq::<Seq<char>>::empty());
        assert(lines.deep_view() + lines_acc(chars@, cur@) =~= spec_lines(chars@));
    }
    while i < n
        invariant
            i <= n,
            n == chars@.len(),
            spec_lines(chars@) == lines.deep_view() + lines_acc(
                chars@.subrange(i as int, n as int),
                cur@,
            ),
        decreases n - i,
    {
        let ghost rest = chars@.subrange(i as int, n as int);
        let ghost cur0 = cur@;
        let ghost dv0 = lines.deep_view();
        proof {
            assert(rest[0] == chars@[i as int]);
            assert(rest.drop_first() =~= chars@.subrange(i + 1 as int, n as int));
        }
        let c = chars[i];
        if c == '\n' {
            if cur.len() > 0 && cur[cur.len() - 1] == '\r' {
                cur.pop();
            }
            proof {
                assert(cur@ =~= strip_cr(cur0));
                assert(cur.deep_view() =~= strip_cr(cur0));
            }
            lines.push(cur);
            cur = Vec::new();
            proof {
                assert(lines.deep_view() =~= dv0 + seq![strip_cr(cur0)]);
                assert(dv0 + (seq![strip_cr(cur0)] + lines_acc(rest.drop_first(), Seq::empty()))
                    =~= (dv0 + seq![strip_cr(cur0)]) + lines_acc(rest.drop_first(), Seq::empty()));
            }
        } else {
            cur.push(c);
        }
        i = i + 1;
    }
    if cur.len() > 0 {
        let ghost cur0 = cur@;
        let ghost dv0 = lines.deep_view();
        proof {
            assert(cur.deep_view() =~= cur0);
        }
        lines.push(cur);
        proof {
            assert(lines.deep_view() =~= dv0 + seq![cur0]);
        }
    }
    proof {
        assert(chars@.subrange(n as int, n as int) =~= Seq::<char>::empty());
    }
    lines
}

/// The whitespace-separated tokens of a line.
fn split_tokens(line: &[char]) -> (toks: Vec<Vec<char>>)
    ensures
        toks.deep_view() == spec_tokens(line@),
{
    let n = line.len();
    let mut toks: Vec<Vec<char>> = Vec::new();
    let mut cur: Vec<char> = Vec::new();
    let mut i: usize = 0;
    proof {
        assert(line@.subrange(0, n as int) =~= line@);
        assert(toks.deep_view() =~= Seq::<Seq<char>>::empty());
        assert(toks.deep_view() + tokens_acc(line@, cur@) =~= spec_tokens(line@));
    }
    while i < n
        invariant
            i <= n,
            n == line@.len(),
            spec_tokens(line@) == toks.deep_view() + tokens_acc(
                line@.subrange(i as int, n as int),
                cur@,
            ),
        decreases n - i,
    {
        let ghost rest = line@.subrange(i as int, n as int);
        let ghost cur0 = cur@;
        let ghost dv0 = toks.deep_view();
        proof {
            assert(rest[0] == line@[i as int]);
            assert(rest.drop_first() =~= line@.subrange(i + 1 as int, n as int));
        }
        let c = line[i];
        if is_wspace_char(c) {
            if cur.len() > 0 {
                proof {
                    assert(cur.deep_view() =~= cur0);
                }
                toks.push(cur);
                cur = Vec::new();
                proof {
                    assert(cur@ =~= Seq::<char>::empty());
                    assert(toks.deep_view() =~= dv0 + seq![cur0]);
                    assert(dv0 + (seq![cur0] + tokens_acc(rest.drop_first(), Seq::empty())) =~= (
                    dv0 + seq![cur0]) + tokens_acc(rest.drop_first(), Seq::empty()));
                }
            } else {
                proof {
                    assert(cur@ =~= Seq::<char>::empty());
                }
            }
        } else {
            cur.push(c);
        }
        i = i + 1;
    }
    if cur.len() > 0 {
        let ghost cur0 = cur@;
        let ghost dv0 = toks.deep_view();
        proof {
            assert(cur.deep_view() =~= cur0);
        }
        toks.push(cur);
        proof {
            assert(toks.deep_view() =~= dv0 + seq![cur0]);
        }
    }
    proof {
        assert(line@.subrange(n as int, n as int) =~= Seq::<char>::empty());
    }
    toks
}

/// A validation message: the given text, then the 1-based line number, then
/// a colon and the offending line.
pub open spec fn txt_msg(prefix: Seq<char>, lineno: nat, line: Seq<char>) -> Seq<char> {
    prefix + crate::numbers::dec_digits(lineno) + ": "@ + line
}

/// Builds the validation error for one line.
fn txt_err(prefix: &str, lineno: u64, line: &[char]) -> (e: ParserError)
    ensures
        e@ == ParserErrorView::Invalid(txt_msg(prefix@, lineno as nat, line@)),
{
    let mut m: Vec<char> = Vec::new();
    push_str_chars(&mut m, prefix);
    push_u64_chars(&mut m, lineno);
    push_str_chars(&mut m, ": ");
    m.extend_from_slice(line);
    let s = string_from_chars(m.as_slice());
    proof {
        assert(s@ =~= txt_msg(prefix@, lineno as nat, line@));
    }
    ParserError::Invalid(s)
}

/// What one text line decodes to: a record when it has exactly the four
/// fields `id account amount currency` with integers that parse, and the
/// exact validation message otherwise.
pub open spec fn txt_parse_line(line: Seq<char>, lineno: nat) -> Result<TransactionView, Seq<char>> {
    let ts = spec_tokens(line);
    if ts.len() < 1 || spec_parse_u64(ts[0]) is None {
        Err(txt_msg("Invalid id, line "@, lineno, line))
    } else if ts.len() < 2 {
        Err(txt_msg("Invalid account, line "@, lineno, line))
    } else if ts.len() < 3 || spec_parse_i64(ts[2]) is None {
        Err(txt_msg("Invalid amount, line "@, lineno, line))
    } else if ts.len() < 4 {
        Err(txt_msg("Invalid currency, line "@, lineno, line))
    } else if ts.len() > 4 {
        Err(txt_msg("Invalid line "@, lineno, line))
    } else {
        Ok(
            TransactionView {
                id: spec_parse_u64(ts[0])->Some_0,
                account: ts[1],
                amount: spec_parse_i64(ts[2])->Some_0,
                currency: ts[3],
            },
        )
    }
}

/// Decodes one line, as [`txt_parse_line`] describes.
fn parse_txt_line(line: &[char], lineno: u64) -> (r: Result<Transaction, ParserError>)
    ensures
        match txt_parse_line(line@, lineno as nat) {
            Ok(tv) => r matches Ok(t) && t@ == tv,
            Err(m) => r matches Err(e) && e@ == ParserErrorView::Invalid(m),
        },
{
    let toks = split_tokens(line);
    let ghost ts = spec_tokens(line@);
    proof {
        assert forall|k: int| 0 <= k < toks@.len() implies toks@[k]@ == #[trigger] ts[k] by {
            assert(toks@[k].deep_view() =~= toks@[k]@);
        }
    }
    if toks.len() < 1 {
        return Err(txt_err("Invalid id, line ", lineno, line));
    }
    let id = match parse_u64_chars(toks[0].as_slice()) {
        Some(v) => v,
        None => {
            return Err(txt_err("Invalid id, line ", lineno, line));
        },
    };
    if toks.len() < 2 {
        return Err(txt_err("Invalid account, line ", lineno, line));
    }
    if toks.len() < 3 {
        return Err(txt_err("Invalid amount, line ", lineno, line));
    }
    let amount = match parse_i64_chars(toks[2].as_slice()) {
        Some(v) => v,
        None => {
            return Err(txt_err("Invalid amount, line ", lineno, line));
        },
    };
    if toks.len() < 4 {
        return Err(txt_err("Invalid currency, line ", lineno, line));
    }
    if toks.len() > 4 {
        return Err(txt_err("Invalid line ", lineno, line));
    }
    let account = string_from_chars(toks[1].as_slice());
    let currency = string_from_chars(toks[3].as_slice());
    Ok(Transaction { id, account, amount, currency })
}

/// What decoding yields from line `i` on: the records of the remaining
/// lines, or the first validation message.
pub open spec fn txt_parse_from(lines: Seq<Seq<char>>, i: int) -> Result<
    Seq<TransactionView>,
    Seq<char>,
>
    decreases lines.len() - i,
{
    if i < 0 || i >= lines.len() {
        Ok(seq![])
    } else {
        match txt_parse_line(lines[i], (i + 1) as nat) {
            Err(m) => Err(m),
            Ok(t) => match txt_parse_from(lines, i + 1) {
                Err(m) => Err(m),
                Ok(rest) => Ok(seq![t] + rest),
            },
        }
    }
}

/// What decoding a text-line stream yields: a transport failure on bytes
/// that are not UTF-8, the first line's validation message, or the records
/// of all lines in order.
pub open spec fn txt_spec_read(input: Seq<u8>) -> Result<Seq<TransactionView>, ParserErrorView> {
    if !valid_utf8(input) {
        Err(ParserErrorView::Io)
    } else {
        match txt_parse_from(spec_lines(decode_utf8(input)), 0) {
            Ok(txs) => Ok(txs),
            Err(m) => Err(ParserErrorView::Invalid(m)),
        }
    }
}

/// The encoded line of one record: the four fields joined by single spaces,
/// terminated by a newline.
pub open spec fn txt_line_chars(t: TransactionView) -> Seq<char> {
    dec_u64(t.id) + seq![' '] + t.account + seq![' '] + dec_i64(t.amount) + seq![' '] + t.currency
        + seq!['\n']
}

/// The encoded characters of a record sequence.
pub open spec fn txt_chars(txs: Seq<TransactionView>) -> Seq<char>
    decreases txs.len(),
{
    if txs.len() == 0 {
        seq![]
    } else {
        txt_line_chars(txs[0]) + txt_chars(txs.drop_first())
    }
}

/// What encoding yields: the UTF-8 bytes of the records' lines.  Writing to
/// a byte sink cannot fail.
pub open spec fn txt_spec_write(txs: Seq<TransactionView>) -> Result<Seq<u8>, ParserErrorView> {
    Ok(encode_utf8(txt_chars(txs)))
}

/// Appending one record extends the encoded characters by its line.
pub proof fn lemma_txt_chars_push(txs: Seq<TransactionView>, t: TransactionView)
    ensures
        txt_chars(txs + seq![t]) == txt_chars(txs) + txt_line_chars(t),
    decreases txs.len(),
{
    if txs.len() == 0 {
        assert((txs + seq![t])[0] == t);
        assert((txs + seq![t]).drop_first() =~= Seq::<TransactionView>::empty());
        assert(txt_chars(Seq::<TransactionView>::empty()) == Seq::<char>::empty());
        assert(txt_chars(txs + seq![t]) == txt_line_chars(t) + Seq::<char>::empty());
        assert(txt_chars(txs + seq![t]) =~= txt_chars(txs) + txt_line_chars(t));
    } else {
        assert((txs + seq![t])[0] == txs[0]);
        assert((txs + seq![t]).drop_first() =~= txs.drop_first() + seq![t]);
        lemma_txt_chars_push(txs.drop_first(), t);
        assert(txt_chars(txs + seq![t]) =~= txt_chars(txs) + txt_line_chars(t));
    }
}

/// A field the text-line format can carry without escaping: non-empty and
/// free of whitespace.
pub open spec fn txt_token_wf(t: Seq<char>) -> bool {
    t.len() > 0 && forall|j: int| 0 <= j < t.len() ==> !is_wspace(#[trigger] t[j])
}

/// A record the text-line format can round-trip: both text fields are
/// non-empty and free of whitespace.
pub open spec fn txt_tx_wf(t: TransactionView) -> bool {
    txt_token_wf(t.account) && txt_token_wf(t.currency)
}

/// A sequence the text-line format can round-trip.
pub open spec fn txt_wf(txs: Seq<TransactionView>) -> bool {
    forall|k: int| 0 <= k < txs.len() ==> txt_tx_wf(#[trigger] txs[k])
}

/// The encoded line of one record without its final newline.
pub open spec fn txt_body(t: TransactionView) -> Seq<char> {
    dec_u64(t.id) + seq![' '] + t.account + seq![' '] + dec_i64(t.amount) + seq![' ']
        + t.currency
}

/// No character of a numeral is whitespace.
pub proof fn lemma_dec_u64_not_ws(n: u64)
    ensures
        forall|i: int|
            0 <= i < dec_u64(n).len() ==> !is_wspace(#[trigger] dec_u64(n)[i]),
        dec_u64(n).len() >= 1,
{
    crate::numbers::lemma_dec_digits_shape(n as nat);
    assert forall|i: int| 0 <= i < dec_u64(n).len() implies !is_wspace(
        #[trigger] dec_u64(n)[i],
    ) by {
        assert(is_digit(dec_u64(n)[i]));
    }
}

/// No character of a signed numeral is whitespace.
pub proof fn lemma_dec_i64_not_ws(n: i64)
    ensures
        forall|i: int|
            0 <= i < dec_i64(n).len() ==> !is_wspace(#[trigger] dec_i64(n)[i]),
        dec_i64(n).len() >= 1,
{
    if n >= 0 {
        crate::numbers::lemma_dec_digits_shape(n as nat);
        assert forall|i: int| 0 <= i < dec_i64(n).len() implies !is_wspace(
            #[trigger] dec_i64(n)[i],
        ) by {
            assert(is_digit(dec_i64(n)[i]));
        }
    } else {
        let m = (0 - n as int) as nat;
        crate::numbers::lemma_dec_digits_shape(m);
        assert forall|i: int| 0 <= i < dec_i64(n).len() implies !is_wspace(
            #[trigger] dec_i64(n)[i],
        ) by {
            if i > 0 {
                assert(dec_i64(n)[i] == crate::numbers::dec_digits(m)[i - 1]);
                assert(is_digit(dec_i64(n)[i]));
            }
        }
    }
}

/// Feeding whitespace-free characters grows the pending token.
pub proof fn lemma_tokens_feed(tk: Seq<char>, s: Seq<char>, cur: Seq<char>)
    requires
        forall|i: int| 0 <= i < tk.len() ==> !is_wspace(#[trigger] tk[i]),
    ensures
        tokens_acc(tk + s, cur) == tokens_acc(s, cur + tk),
    decreases tk.len(),
{
    if tk.len() == 0 {
        assert(tk + s =~= s);
        assert(cur + tk =~= cur);
    } else {
        assert((tk + s)[0] == tk[0]);
        assert((tk + s).drop_first() =~= tk.drop_first() + s);
        lemma_tokens_feed(tk.drop_first(), s, cur.push(tk[0]));
        assert(cur.push(tk[0]) + tk.drop_first() =~= cur + tk);
    }
}

/// Feeding newline-free characters grows the pending line.
pub proof fn lemma_lines_feed(p: Seq<char>, s: Seq<char>, cur: Seq<char>)
    requires
        forall|i: int| 0 <= i < p.len() ==> #[trigger] p[i] != '\n',
    ensures
        lines_acc(p + s, cur) == lines_acc(s, cur + p),
    decreases p.len(),
{
    if p.len() == 0 {
        assert(p + s =~= s);
        assert(cur + p =~= cur);
    } else {
        assert((p + s)[0] == p[0]);
        assert((p + s).drop_first() =~= p.drop_first() + s);
        lemma_lines_feed(p.drop_first(), s, cur.push(p[0]));
        assert(cur.push(p[0]) + p.drop_first() =~= cur + p);
    }
}

/// The tokens of an encoded line are exactly the four fields.
pub proof fn lemma_txt_body_tokens(t: TransactionView)
    requires
        txt_tx_wf(t),
    ensures
        spec_tokens(txt_body(t)) == seq![dec_u64(t.id), t.account, dec_i64(t.amount), t.currency],
{
    let d1 = dec_u64(t.id);
    let d2 = dec_i64(t.amount);
    lemma_dec_u64_not_ws(t.id);
    lemma_dec_i64_not_ws(t.amount);
    let x3: Seq<char> = t.currency;
    let x2: Seq<char> = d2 + seq![' '] + x3;
    let x1: Seq<char> = t.account + seq![' '] + x2;
    let body = txt_body(t);
    assert(body =~= d1 + (seq![' '] + x1));
    lemma_tokens_feed(d1, seq![' '] + x1, seq![]);
    assert(Seq::<char>::empty() + d1 =~= d1);
    assert((seq![' '] + x1).drop_first() =~= x1);
    assert(tokens_acc(seq![' '] + x1, d1) == seq![d1] + tokens_acc(x1, seq![]));
    assert(x1 =~= t.account + (seq![' '] + x2));
    lemma_tokens_feed(t.account, seq![' '] + x2, seq![]);
    assert(Seq::<char>::empty() + t.account =~= t.account);
    assert((seq![' '] + x2).drop_first() =~= x2);
    assert(tokens_acc(x1, seq![]) == seq![t.account] + tokens_acc(x2, seq![]));
    assert(x2 =~= d2 + (seq![' '] + x3));
    lemma_tokens_feed(d2, seq![' '] + x3, seq![]);
    assert(Seq::<char>::empty() + d2 =~= d2);
    assert((seq![' '] + x3).drop_first() =~= x3);
    assert(tokens_acc(x2, seq![]) == seq![d2] + tokens_acc(x3, seq![]));
    assert(x3 =~= x3 + Seq::<char>::empty());
    lemma_tokens_feed(x3, Seq::<char>::empty(), seq![]);
    assert(Seq::<char>::empty() + x3 =~= x3);
    assert(tokens_acc(x3, seq![]) == seq![x3]);
    assert(seq![d1] + (seq![t.account] + (seq![d2] + seq![x3])) =~= seq![
        d1,
        t.account,
        d2,
        x3,
    ]);
}

/// An encoded line decodes to its record.
pub proof fn lemma_txt_body_parse(t: TransactionView, lineno: nat)
    requires
        txt_tx_wf(t),
    ensures
        txt_parse_line(txt_body(t), lineno) == Ok::<TransactionView, Seq<char>>(t),
{
    lemma_txt_body_tokens(t);
    crate::numbers::lemma_parse_u64_round(t.id);
    crate::numbers::lemma_parse_i64_round(t.amount);
    let ts = spec_tokens(txt_body(t));
    assert(ts[0] == dec_u64(t.id));
    assert(ts[2] == dec_i64(t.amount));
    assert(txt_parse_line(txt_body(t), lineno)->Ok_0 =~= t);
}

/// The lines of an encoded sequence are exactly the records' lines.
pub proof fn lemma_txt_lines(txs: Seq<TransactionView>)
    requires
        txt_wf(txs),
    ensures
        spec_lines(txt_chars(txs)) == Seq::new(txs.len() as nat, |k: int| txt_body(txs[k])),
    decreases txs.len(),
{
    if txs.len() == 0 {
        assert(spec_lines(txt_chars(txs)) =~= Seq::new(0, |k: int| txt_body(txs[k])));
    } else {
        let t = txs[0];
        let body = txt_body(t);
        let rest = txt_chars(txs.drop_first());
        lemma_dec_u64_not_ws(t.id);
        lemma_dec_i64_not_ws(t.amount);
        assert(is_wspace('\n'));
        assert forall|i: int| 0 <= i < body.len() implies #[trigger] body[i] != '\n' by {
            if body[i] == '\n' {
                assert(is_wspace(body[i]));
            }
        }
        assert(txt_chars(txs) =~= body + (seq!['\n'] + rest));
        lemma_lines_feed(body, seq!['\n'] + rest, seq![]);
        assert(Seq::<char>::empty() + body =~= body);
        assert((seq!['\n'] + rest).drop_first() =~= rest);
        assert(body.last() == t.currency.last());
        assert(!is_wspace(t.currency.last()));
        assert(strip_cr(body) == body);
        assert(lines_acc(seq!['\n'] + rest, body) == seq![body] + spec_lines(rest));
        assert(txt_wf(txs.drop_first()));
        lemma_txt_lines(txs.drop_first());
        assert(seq![body] + Seq::new((txs.len() - 1) as nat, |k: int| txt_body(txs.drop_first()[k]))
            =~= Seq::new(txs.len() as nat, |k: int| txt_body(txs[k])));
    }
}

/// The records' lines decode back to the records, from any position on.
pub proof fn lemma_txt_parse_bodies(txs: Seq<TransactionView>, lines: Seq<Seq<char>>, i: int)
    requires
        txt_wf(txs),
        lines.len() == txs.len(),
        0 <= i <= txs.len(),
        forall|k: int| 0 <= k < txs.len() ==> lines[k] == txt_body(#[trigger] txs[k]),
    ensures
        txt_parse_from(lines, i) == Ok::<Seq<TransactionView>, Seq<char>>(txs.skip(i)),
    decreases txs.len() - i,
{
    if i == txs.len() {
        assert(txs.skip(i) =~= Seq::<TransactionView>::empty());
    } else {
        lemma_txt_body_parse(txs[i], (i + 1) as nat);
        lemma_txt_parse_bodies(txs, lines, i + 1);
        assert(seq![txs[i]] + txs.skip(i + 1) =~= txs.skip(i));
    }
}

/// The round-trip law of the text-line codec: decoding an encoded sequence
/// yields the sequence itself, whenever every text field is non-empty and
/// free of whitespace.  (The format writes fields unescaped, so a field
/// with whitespace would change the token structure.)
pub proof fn lemma_txt_round_trip(txs: Seq<TransactionView>)
    requires
        txt_wf(txs),
    ensures
        txt_spec_write(txs) matches Ok(b) && txt_spec_read(b) == Ok::<
            Seq<TransactionView>,
            ParserErrorView,
        >(txs),
{
    let chars = txt_chars(txs);
    vstd::utf8::encode_utf8_valid_utf8(chars);
    vstd::utf8::encode_utf8_decode_utf8(chars);
    lemma_txt_lines(txs);
    lemma_txt_parse_bodies(txs, Seq::new(txs.len() as nat, |k: int| txt_body(txs[k])), 0);
    assert(txs.skip(0) =~= txs);
}

/// Every token the tokenizer yields is non-empty and free of whitespace.
pub proof fn lemma_tokens_wf(s: Seq<char>, cur: Seq<char>)
    requires
        forall|j: int| 0 <= j < cur.len() ==> !is_wspace(#[trigger] cur[j]),
    ensures
        forall|k: int|
            0 <= k < tokens_acc(s, cur).len() ==> txt_token_wf(#[trigger] tokens_acc(s, cur)[k]),
    decreases s.len(),
{
    if s.len() == 0 {
        if cur.len() > 0 {
            assert(tokens_acc(s, cur) == seq![cur]);
            assert(txt_token_wf(cur));
            assert(forall|k: int|
                0 <= k < tokens_acc(s, cur).len() ==> tokens_acc(s, cur)[k] == cur);
        }
    } else if is_wspace(s[0]) {
        lemma_tokens_wf(s.drop_first(), seq![]);
        if cur.len() > 0 {
            assert forall|k: int| 0 <= k < tokens_acc(s, cur).len() implies txt_token_wf(
                #[trigger] tokens_acc(s, cur)[k],
            ) by {
                if k == 0 {
                    assert(tokens_acc(s, cur)[0] == cur);
                } else {
                    assert(tokens_acc(s, cur)[k] == tokens_acc(s.drop_first(), seq![])[k - 1]);
                }
            }
        } else {
            assert(tokens_acc(s, cur) == tokens_acc(s.drop_first(), seq![]));
        }
    } else {
        assert(forall|j: int|
            0 <= j < cur.push(s[0]).len() ==> !is_wspace(#[trigger] cur.push(s[0])[j]));
        lemma_tokens_wf(s.drop_first(), cur.push(s[0]));
        assert(tokens_acc(s, cur) == tokens_acc(s.drop_first(), cur.push(s[0])));
    }
}

/// Whatever one line decodes to satisfies the round-trip condition.
pub proof fn lemma_txt_line_wf(line: Seq<char>, lineno: nat)
    ensures
        txt_parse_line(line, lineno) matches Ok(t) ==> txt_tx_wf(t),
{
    lemma_tokens_wf(line, seq![]);
}

/// Whatever decoding yields satisfies the round-trip condition.
pub proof fn lemma_txt_parse_wf(lines: Seq<Seq<char>>, i: int)
    ensures
        txt_parse_from(lines, i) matches Ok(ts) ==> txt_wf(ts),
    decreases lines.len() - i,
{
    if i < 0 || i >= lines.len() {
    } else {
        lemma_txt_line_wf(lines[i], (i + 1) as nat);
        lemma_txt_parse_wf(lines, i + 1);
        if txt_parse_from(lines, i) is Ok {
            let t = txt_parse_line(lines[i], (i + 1) as nat)->Ok_0;
            let rest = txt_parse_from(lines, i + 1)->Ok_0;
            assert forall|k: int| 0 <= k < (seq![t] + rest).len() implies txt_tx_wf(
                #[trigger] (seq![t] + rest)[k],
            ) by {
                if k > 0 {
                    assert((seq![t] + rest)[k] == rest[k - 1]);
                }
            }
        }
    }
}

/// The idempotence law of the text-line codec: re-encoding a decoded
/// sequence and decoding again yields the same sequence.
pub proof fn lemma_txt_idempotent(input: Seq<u8>)
    requires
        txt_spec_read(input) is Ok,
    ensures
        txt_spec_write(txt_spec_read(input)->Ok_0) matches Ok(b2) && txt_spec_read(b2)
            == txt_spec_read(input),
{
    let lines = spec_lines(decode_utf8(input));
    lemma_txt_parse_wf(lines, 0);
    lemma_txt_round_trip(txt_spec_read(input)->Ok_0);
}

/// The whitespace-delimited text-line codec.
pub struct TxtParser;

impl Format for TxtParser {
    open spec fn spec_read(input: Seq<u8>) -> Result<Seq<TransactionView>, ParserErrorView> {
        txt_spec_read(input)
    }

    open spec fn spec_write(txs: Seq<TransactionView>) -> Result<Seq<u8>, ParserErrorView> {
        txt_spec_write(txs)
    }

    fn read(input: &[u8]) -> (r: Result<Vec<Transaction>, ParserError>) {
        let s = match utf8_to_str(input) {
            Some(s) => s,
            None => {
                return Err(ParserError::Io);
            },
        };
        proof {
            vstd::utf8::encode_utf8_decode_utf8(s@);
            assert(s@ == decode_utf8(input@));
        }
        let chars = chars_of(s);
        let lines = split_lines(chars.as_slice());
        let ghost ldv = lines.deep_view();
        let mut txs: Vec<Transaction> = Vec::new();
        let n = lines.len();
        let mut i: usize = 0;
        proof {
            assert(txs.deep_view() =~= Seq::<TransactionView>::empty());
            assert(txs.deep_view() + txt_parse_from(ldv, 0)->Ok_0 =~= txt_parse_from(ldv, 0)->Ok_0);
        }
        while i < n
            invariant
                i <= n,
                n == lines@.len(),
                ldv == lines.deep_view(),
                ldv.len() == n,
                valid_utf8(input@),
                ldv == spec_lines(decode_utf8(input@)),
                txt_parse_from(ldv, 0) == (match txt_parse_from(ldv, i as int) {
                    Ok(rest) => Ok::<Seq<TransactionView>, Seq<char>>(txs.deep_view() + rest),
                    Err(m) => Err(m),
                }),
            decreases n - i,
        {
            proof {
                assert(ldv[i as int] == lines@[i as int].deep_view());
                assert(lines@[i as int].deep_view() =~= lines@[i as int]@);
            }
            let line = &lines[i];
            match parse_txt_line(line.as_slice(), (i + 1) as u64) {
                Ok(t) => {
                    let ghost dv0 = txs.deep_view();
                    txs.push(t);
                    proof {
                        assert(txs.deep_view() =~= dv0 + seq![t@]);
                        if txt_parse_from(ldv, i + 1 as int) is Ok {
                            let rest = txt_parse_from(ldv, i + 1 as int)->Ok_0;
                            assert(dv0 + (seq![t@] + rest) =~= (dv0 + seq![t@]) + rest);
                        }
                    }
                },
                Err(e) => {
                    proof {
                        assert(txt_parse_from(ldv, i as int) is Err);
                        assert(txt_parse_from(ldv, 0) == txt_parse_from(ldv, i as int));
                        assert(valid_utf8(input@));
                        assert(ldv == spec_lines(decode_utf8(input@)));
                        assert(txt_spec_read(input@) matches Err(x) && x == e@);
                    }
                    return Err(e);
                },
            }
            i = i + 1;
        }
        proof {
            if txt_parse_from(ldv, n as int) is Ok {
                let rest = txt_parse_from(ldv, n as int)->Ok_0;
                assert(txs.deep_view() + rest =~= txs.deep_view());
            }
        }
        Ok(txs)
    }

    fn write(writer: &mut Vec<u8>, transactions: &[Transaction]) -> (r: Result<
        (),
        ParserError,
    >) {
        let ghost dv = transactions.deep_view();
        let mut out: Vec<char> = Vec::new();
        let n = transactions.len();
        let mut i: usize = 0;
        proof {
            assert(dv.subrange(0, 0) =~= Seq::<TransactionView>::empty());
        }
        while i < n
            invariant
                i <= n,
                n == transactions@.len(),
                dv == transactions.deep_view(),
                dv.len() == n,
                out@ == txt_chars(dv.subrange(0, i as int)),
            decreases n - i,
        {
            let t = &transactions[i];
            proof {
                assert(t@ == dv[i as int]);
            }
            push_u64_chars(&mut out, t.id);
            out.push(' ');
            push_str_chars(&mut out, t.account.as_str());
            out.push(' ');
            push_i64_chars(&mut out, t.amount);
            out.push(' ');
            push_str_chars(&mut out, t.currency.as_str());
            out.push('\n');
            proof {
                assert(dv.subrange(0, i + 1 as int) =~= dv.subrange(0, i as int) + seq![
                    dv[i as int],
                ]);
                lemma_txt_chars_push(dv.subrange(0, i as int), dv[i as int]);
                assert(out@ =~= txt_chars(dv.subrange(0, i as int)) + txt_line_chars(
                    dv[i as int],
                ));
            }
            i = i + 1;
        }
        proof {
            assert(dv.subrange(0, n as int) =~= dv);
        }
        let s = string_from_chars(out.as_slice());
        let bytes = s.as_str().as_bytes_vec();
        writer.extend_from_slice(bytes.as_slice());
        Ok(())
    }
}

} // verus!
