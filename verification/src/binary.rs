//! The binary codec: a fixed little-endian layout with no padding.
//!
//! The wire format is a `u32` record count, then for each record a `u64`
//! id, an `i64` amount in two's complement, and the two string fields each
//! as a `u32` byte length followed by that many UTF-8 bytes.  Decoding
//! reads exactly the declared number of records and reports any short read
//! as a transport failure; string bytes are decoded lossily, so invalid
//! UTF-8 becomes replacement characters rather than an error.  Encoding
//! writes each length as the exact byte length of the field's UTF-8
//! encoding, and fails when a length or the record count does not fit in
//! 32 bits.

use vstd::bytes::{
    spec_u32_from_le_bytes, spec_u32_to_le_bytes, spec_u64_from_le_bytes, spec_u64_to_le_bytes,
    u32_from_le_bytes, u32_to_le_bytes, u64_from_le_bytes, u64_to_le_bytes,
    lemma_auto_spec_u32_to_from_le_bytes, lemma_auto_spec_u64_to_from_le_bytes,
};
use vstd::prelude::*;
use vstd::slice::slice_subrange;
use vstd::string::StrSliceExecFns;
use vstd::utf8::{decode_utf8, encode_utf8, valid_utf8};

use crate::errors::{ParserError, ParserErrorView};
use crate::models::{Transaction, TransactionView};
use crate::text::{lossy_decode, lossy_string};
use crate::Format;

verus! {

/// The two's-complement bit pattern of a signed amount.
pub open spec fn i64_bits(n: i64) -> u64 {
    if n >= 0 {
        n as u64
    } else {
        ((n as int) + 0x1_0000_0000_0000_0000) as u64
    }
}

/// The signed amount a two's-complement bit pattern denotes.
pub open spec fn bits_to_i64(u: u64) -> i64 {
    if u < 0x8000_0000_0000_0000 {
        u as i64
    } else {
        ((u as int) - 0x1_0000_0000_0000_0000) as i64
    }
}

/// A record whose string fields fit the 32-bit length fields.
pub open spec fn bin_tx_wf(t: TransactionView) -> bool {
    encode_utf8(t.account).len() <= u32::MAX && encode_utf8(t.currency).len() <= u32::MAX
}

/// A sequence the binary format can carry: the count and every length fit
/// in 32 bits.
pub open spec fn bin_wf(txs: Seq<TransactionView>) -> bool {
    txs.len() <= u32::MAX && forall|k: int|
        0 <= k < txs.len() ==> bin_tx_wf(#[trigger] txs[k])
}

/// The wire bytes of one record.
pub open spec fn bin_tx_bytes(t: TransactionView) -> Seq<u8> {
    spec_u64_to_le_bytes(t.id) + spec_u64_to_le_bytes(i64_bits(t.amount)) + spec_u32_to_le_bytes(
        encode_utf8(t.account).len() as u32,
    ) + encode_utf8(t.account) + spec_u32_to_le_bytes(encode_utf8(t.currency).len() as u32)
        + encode_utf8(t.currency)
}

/// The wire bytes of a record sequence, without the leading count.
pub open spec fn bin_recs_bytes(txs: Seq<TransactionView>) -> Seq<u8>
    decreases txs.len(),
{
    if txs.len() == 0 {
        seq![]
    } else {
        bin_tx_bytes(txs[0]) + bin_recs_bytes(txs.drop_first())
    }
}

/// What encoding yields: the count and the records, or a failure when the
/// sequence does not fit the 32-bit length fields.
pub open spec fn bin_spec_write(txs: Seq<TransactionView>) -> Result<Seq<u8>, ParserErrorView> {
    if bin_wf(txs) {
        Ok(spec_u32_to_le_bytes(txs.len() as u32) + bin_recs_bytes(txs))
    } else {
        Err(ParserErrorView::Io)
    }
}

/// What reading one record from the front of `b` yields: the record and
/// the number of bytes consumed, or nothing on a short read.
pub open spec fn bin_read_rec(b: Seq<u8>) -> Option<(TransactionView, int)> {
    if b.len() < 20 {
        None
    } else {
        let id = spec_u64_from_le_bytes(b.subrange(0, 8));
        let amount = bits_to_i64(spec_u64_from_le_bytes(b.subrange(8, 16)));
        let alen = spec_u32_from_le_bytes(b.subrange(16, 20)) as int;
        if b.len() < 24 + alen {
            None
        } else {
            let account = lossy_decode(b.subrange(20, 20 + alen));
            let clen = spec_u32_from_le_bytes(b.subrange(20 + alen, 24 + alen)) as int;
            if b.len() < 24 + alen + clen {
                None
            } else {
                let currency = lossy_decode(b.subrange(24 + alen, 24 + alen + clen));
                Some((TransactionView { id, account, amount, currency }, 24 + alen + clen))
            }
        }
    }
}

/// What reading `n` records from `b` yields, or nothing on a short read.
pub open spec fn bin_read_recs(b: Seq<u8>, n: nat) -> Option<Seq<TransactionView>>
    decreases n,
{
    if n == 0 {
        Some(seq![])
    } else {
        match bin_read_rec(b) {
            None => None,
            Some((t, used)) => match bin_read_recs(b.skip(used), (n - 1) as nat) {
                None => None,
                Some(rest) => Some(seq![t] + rest),
            },
        }
    }
}

/// What decoding a binary stream yields: the declared number of records,
/// or a transport failure on any short read.  Trailing bytes are ignored.
pub open spec fn bin_spec_read(input: Seq<u8>) -> Result<Seq<TransactionView>, ParserErrorView> {
    if input.len() < 4 {
        Err(ParserErrorView::Io)
    } else {
        match bin_read_recs(input.skip(4), spec_u32_from_le_bytes(input.subrange(0, 4)) as nat) {
            None => Err(ParserErrorView::Io),
            Some(txs) => Ok(txs),
        }
    }
}

/// Reads a little-endian `u32` at `pos`.
fn read_u32_at(input: &[u8], pos: usize) -> (x: u32)
    requires
        pos + 4 <= input@.len() <= usize::MAX,
    ensures
        x == spec_u32_from_le_bytes(input@.subrange(pos as int, pos + 4)),
{
    let s = slice_subrange(input, pos, pos + 4);
    u32_from_le_bytes(s)
}

/// Reads a little-endian `u64` at `pos`.
fn read_u64_at(input: &[u8], pos: usize) -> (x: u64)
    requires
        pos + 8 <= input@.len() <= usize::MAX,
    ensures
        x == spec_u64_from_le_bytes(input@.subrange(pos as int, pos + 8)),
{
    let s = slice_subrange(input, pos, pos + 8);
    u64_from_le_bytes(s)
}

/// Appending one record extends the wire bytes by its encoding.
pub proof fn lemma_bin_recs_push(txs: Seq<TransactionView>, t: TransactionView)
    ensures
        bin_recs_bytes(txs + seq![t]) == bin_recs_bytes(txs) + bin_tx_bytes(t),
    decreases txs.len(),
{
    if txs.len() == 0 {
        assert((txs + seq![t])[0] == t);
        assert((txs + seq![t]).drop_first() =~= Seq::<TransactionView>::empty());
        assert(bin_recs_bytes(Seq::<TransactionView>::empty()) == Seq::<u8>::empty());
        assert(bin_recs_bytes(txs + seq![t]) =~= bin_recs_bytes(txs) + bin_tx_bytes(t));
    } else {
        assert((txs + seq![t])[0] == txs[0]);
        assert((txs + seq![t]).drop_first() =~= txs.drop_first() + seq![t]);
        lemma_bin_recs_push(txs.drop_first(), t);
        assert(bin_recs_bytes(txs + seq![t]) =~= bin_recs_bytes(txs) + bin_tx_bytes(t));
    }
}

/// Reading one record back from the front of a stream that starts with its
/// encoding yields that record and consumes exactly its bytes.
pub proof fn lemma_bin_rec_round(t: TransactionView, rest: Seq<u8>)
    requires
        bin_tx_wf(t),
    ensures
        bin_read_rec(bin_tx_bytes(t) + rest) == Some((t, bin_tx_bytes(t).len() as int)),
{
    lemma_auto_spec_u32_to_from_le_bytes();
    lemma_auto_spec_u64_to_from_le_bytes();
    let b = bin_tx_bytes(t) + rest;
    let ea = encode_utf8(t.account);
    let ec = encode_utf8(t.currency);
    let alen = ea.len() as int;
    let clen = ec.len() as int;
    assert(bin_tx_bytes(t).len() == 24 + alen + clen);
    assert(b.subrange(0, 8) =~= spec_u64_to_le_bytes(t.id));
    assert(b.subrange(8, 16) =~= spec_u64_to_le_bytes(i64_bits(t.amount)));
    assert(b.subrange(16, 20) =~= spec_u32_to_le_bytes(ea.len() as u32));
    assert(b.subrange(20, 20 + alen) =~= ea);
    assert(b.subrange(20 + alen, 24 + alen) =~= spec_u32_to_le_bytes(ec.len() as u32));
    assert(b.subrange(24 + alen, 24 + alen + clen) =~= ec);
    vstd::utf8::encode_utf8_valid_utf8(t.account);
    vstd::utf8::encode_utf8_decode_utf8(t.account);
    vstd::utf8::encode_utf8_valid_utf8(t.currency);
    vstd::utf8::encode_utf8_decode_utf8(t.currency);
    assert(bits_to_i64(i64_bits(t.amount)) == t.amount);
}

/// Reading back the records of an encoded sequence yields that sequence.
pub proof fn lemma_bin_recs_round(txs: Seq<TransactionView>)
    requires
        forall|k: int| 0 <= k < txs.len() ==> bin_tx_wf(#[trigger] txs[k]),
    ensures
        bin_read_recs(bin_recs_bytes(txs), txs.len()) == Some(txs),
    decreases txs.len(),
{
    if txs.len() == 0 {
        assert(bin_read_recs(bin_recs_bytes(txs), 0) == Some(Seq::<TransactionView>::empty()));
        assert(txs =~= Seq::<TransactionView>::empty());
    } else {
        let t = txs[0];
        let tail = txs.drop_first();
        lemma_bin_rec_round(t, bin_recs_bytes(tail));
        assert(bin_recs_bytes(txs) == bin_tx_bytes(t) + bin_recs_bytes(tail));
        assert(bin_recs_bytes(txs).skip(bin_tx_bytes(t).len() as int) =~= bin_recs_bytes(tail));
        assert(forall|k: int| 0 <= k < tail.len() ==> bin_tx_wf(#[trigger] tail[k]));
        lemma_bin_recs_round(tail);
        assert(seq![t] + tail =~= txs);
    }
}

/// The round-trip law of the binary codec: decoding an encoded sequence
/// yields the sequence itself, whenever the sequence fits the format's
/// 32-bit count and length fields.
pub proof fn lemma_bin_round_trip(txs: Seq<TransactionView>)
    requires
        bin_wf(txs),
    ensures
        bin_spec_write(txs) matches Ok(b) && bin_spec_read(b) == Ok::<
            Seq<TransactionView>,
            ParserErrorView,
        >(txs),
{
    lemma_auto_spec_u32_to_from_le_bytes();
    let b = spec_u32_to_le_bytes(txs.len() as u32) + bin_recs_bytes(txs);
    assert(b.len() >= 4);
    assert(b.subrange(0, 4) =~= spec_u32_to_le_bytes(txs.len() as u32));
    assert(b.skip(4) =~= bin_recs_bytes(txs));
    lemma_bin_recs_round(txs);
}

/// The idempotence law of the binary codec: re-encoding a decoded sequence
/// and decoding again yields the same sequence, whenever the decoded
/// sequence still fits the 32-bit length fields.  (A stream whose string
/// bytes are not valid UTF-8 can decode to replacement-character text
/// whose re-encoding is longer than the format allows.)
pub proof fn lemma_bin_idempotent(input: Seq<u8>)
    requires
        bin_spec_read(input) is Ok,
        bin_wf(bin_spec_read(input)->Ok_0),
    ensures
        bin_spec_write(bin_spec_read(input)->Ok_0) matches Ok(b2) && bin_spec_read(b2)
            == bin_spec_read(input),
{
    lemma_bin_round_trip(bin_spec_read(input)->Ok_0);
}

/// The little-endian binary codec.
pub struct BinParser;

impl Format for BinParser {
    open spec fn spec_read(input: Seq<u8>) -> Result<Seq<TransactionView>, ParserErrorView> {
        bin_spec_read(input)
    }

    open spec fn spec_write(txs: Seq<TransactionView>) -> Result<Seq<u8>, ParserErrorView> {
        bin_spec_write(txs)
    }

    fn read(input: &[u8]) -> (r: Result<Vec<Transaction>, ParserError>) {
        let len = input.len();
        if len < 4 {
            return Err(ParserError::Io);
        }
        let count = read_u32_at(input, 0);
        let mut txs: Vec<Transaction> = Vec::new();
        let mut pos: usize = 4;
        let mut i: u32 = 0;
        proof {
            assert(txs.deep_view() =~= Seq::<TransactionView>::empty());
            if bin_read_recs(input@.skip(4), count as nat) is Some {
                let whole = bin_read_recs(input@.skip(4), count as nat)->Some_0;
                assert(txs.deep_view() + whole =~= whole);
            }
        }
        while i < count
            invariant
                4 <= pos <= len,
                len == input@.len(),
                i <= count,
                count == spec_u32_from_le_bytes(input@.subrange(0, 4)),
                txs.deep_view().len() == i,
                bin_spec_read(input@) == (match bin_read_recs(
                    input@.skip(pos as int),
                    (count - i) as nat,
                ) {
                    None => Err::<Seq<TransactionView>, ParserErrorView>(ParserErrorView::Io),
                    Some(rest) => Ok(txs.deep_view() + rest),
                }),
            decreases count - i,
        {
            let ghost b = input@.skip(pos as int);
            let remaining = len - pos;
            proof {
                assert(b.len() == remaining);
            }
            if remaining < 20 {
                return Err(ParserError::Io);
            }
            proof {
                assert(b.subrange(0, 8) =~= input@.subrange(pos as int, pos + 8));
                assert(b.subrange(8, 16) =~= input@.subrange(pos + 8, pos + 16));
                assert(b.subrange(16, 20) =~= input@.subrange(pos + 16, pos + 20));
            }
            let id = read_u64_at(input, pos);
            let amount_bits = read_u64_at(input, pos + 8);
            let alen32 = read_u32_at(input, pos + 16);
            let alen = alen32 as usize;
            if remaining - 20 < alen || remaining - 20 - alen < 4 {
                proof {
                    assert(b.len() < 24 + alen);
                    assert(bin_read_rec(b) is None);
                }
                return Err(ParserError::Io);
            }
            let apos = pos + 20;
            proof {
                assert(b.subrange(20, 20 + alen as int) =~= input@.subrange(
                    apos as int,
                    apos + alen,
                ));
                assert(b.subrange(20 + alen as int, 24 + alen as int) =~= input@.subrange(
                    apos + alen,
                    apos + alen + 4,
                ));
            }
            let account = lossy_string(slice_subrange(input, apos, apos + alen));
            let clen32 = read_u32_at(input, apos + alen);
            let clen = clen32 as usize;
            if remaining - 24 - alen < clen {
                proof {
                    assert(b.len() < 24 + alen + clen);
                    assert(bin_read_rec(b) is None);
                }
                return Err(ParserError::Io);
            }
            let cpos = apos + alen + 4;
            proof {
                assert(b.subrange(24 + alen as int, 24 + alen as int + clen as int)
                    =~= input@.subrange(cpos as int, cpos + clen));
            }
            let currency = lossy_string(slice_subrange(input, cpos, cpos + clen));
            let amount: i64 = if amount_bits < 0x8000_0000_0000_0000 {
                amount_bits as i64
            } else {
                -((0xffff_ffff_ffff_ffffu64 - amount_bits) as i64) - 1
            };
            proof {
                assert(amount == bits_to_i64(amount_bits));
            }
            let t = Transaction { id, account, amount, currency };
            let ghost dv0 = txs.deep_view();
            proof {
                assert(bin_read_rec(b) == Some((t@, 24 + alen as int + clen as int)));
            }
            txs.push(t);
            pos = cpos + clen;
            i = i + 1;
            proof {
                assert(txs.deep_view() =~= dv0 + seq![t@]);
                assert(b.skip(24 + alen as int + clen as int) =~= input@.skip(pos as int));
                if bin_read_recs(input@.skip(pos as int), (count - i) as nat) is Some {
                    let rest = bin_read_recs(input@.skip(pos as int), (count - i) as nat)->Some_0;
                    assert(dv0 + (seq![t@] + rest) =~= (dv0 + seq![t@]) + rest);
                }
            }
        }
        proof {
            assert(bin_read_recs(input@.skip(pos as int), 0) == Some(Seq::<TransactionView>::empty()));
            assert(txs.deep_view() + Seq::<TransactionView>::empty() =~= txs.deep_view());
        }
        Ok(txs)
    }

    fn write(writer: &mut Vec<u8>, transactions: &[Transaction]) -> (r: Result<
        (),
        ParserError,
    >) {
        let ghost dv = transactions.deep_view();
        let n = transactions.len();
        if n > u32::MAX as usize {
            return Err(ParserError::Io);
        }
        let mut i: usize = 0;
        while i < n
            invariant
                i <= n,
                n == transactions@.len(),
                dv == transactions.deep_view(),
                n <= u32::MAX,
                forall|k: int| 0 <= k < i ==> bin_tx_wf(#[trigger] dv[k]),
            decreases n - i,
        {
            let t = &transactions[i];
            proof {
                assert(t@ == dv[i as int]);
            }
            let ab = t.account.as_str().as_bytes_vec();
            if ab.len() > u32::MAX as usize {
                proof {
                    assert(!bin_tx_wf(dv[i as int]));
                }
                return Err(ParserError::Io);
            }
            let cb = t.currency.as_str().as_bytes_vec();
            if cb.len() > u32::MAX as usize {
                proof {
                    assert(!bin_tx_wf(dv[i as int]));
                }
                return Err(ParserError::Io);
            }
            i = i + 1;
        }
        proof {
            assert(bin_wf(dv));
            assert(dv.subrange(0, 0) =~= Seq::<TransactionView>::empty());
        }
        let count_bytes = u32_to_le_bytes(n as u32);
        writer.extend_from_slice(count_bytes.as_slice());
        let mut i: usize = 0;
        while i < n
            invariant
                i <= n,
                n == transactions@.len(),
                dv == transactions.deep_view(),
                n <= u32::MAX,
                bin_wf(dv),
                writer@ == old(writer)@ + spec_u32_to_le_bytes(n as u32) + bin_recs_bytes(
                    dv.subrange(0, i as int),
                ),
            decreases n - i,
        {
            let t = &transactions[i];
            proof {
                assert(t@ == dv[i as int]);
            }
            let id_bytes = u64_to_le_bytes(t.id);
            writer.extend_from_slice(id_bytes.as_slice());
            let bits: u64 = if t.amount >= 0 {
                t.amount as u64
            } else {
                0xffff_ffff_ffff_ffffu64 - ((-(t.amount + 1)) as u64)
            };
            proof {
                assert(bits == i64_bits(dv[i as int].amount));
            }
            let bits_bytes = u64_to_le_bytes(bits);
            writer.extend_from_slice(bits_bytes.as_slice());
            let ab = t.account.as_str().as_bytes_vec();
            let alen_bytes = u32_to_le_bytes(ab.len() as u32);
            writer.extend_from_slice(alen_bytes.as_slice());
            writer.extend_from_slice(ab.as_slice());
            let cb = t.currency.as_str().as_bytes_vec();
            let clen_bytes = u32_to_le_bytes(cb.len() as u32);
            writer.extend_from_slice(clen_bytes.as_slice());
            writer.extend_from_slice(cb.as_slice());
            proof {
                assert(dv.subrange(0, i + 1 as int) =~= dv.subrange(0, i as int) + seq![
                    dv[i as int],
                ]);
                lemma_bin_recs_push(dv.subrange(0, i as int), dv[i as int]);
                assert(writer@ =~= old(writer)@ + spec_u32_to_le_bytes(n as u32)
                    + bin_recs_bytes(dv.subrange(0, i + 1 as int)));
            }
            i = i + 1;
        }
        proof {
            assert(dv.subrange(0, n as int) =~= dv);
            assert(writer@ =~= old(writer)@ + (spec_u32_to_le_bytes(n as u32) + bin_recs_bytes(
                dv,
            )));
        }
        Ok(())
    }
}

} // verus!
