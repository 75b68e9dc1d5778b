//! Characters and UTF-8 at the codec boundary.
//!
//! Every codec takes bytes in and gives bytes out, while the text formats
//! reason in characters.  This module converts between the two: a checked
//! decoding for the strict text formats, the lossy decoding the binary
//! format uses for its string fields, and verified helpers for walking and
//! assembling character sequences.

use vstd::prelude::*;
use vstd::string::StrSliceExecFns;
use vstd::utf8::{decode_utf8, encode_utf8, valid_utf8};

verus! {

/// What `String::from_utf8_lossy` yields on bytes that are not valid UTF-8.
/// The substitution of replacement characters depends on the bytes alone.
pub uninterp spec fn replacement_decode(b: Seq<u8>) -> Seq<char>;

/// The characters a byte sequence decodes to under the lossy policy: the
/// exact characters for valid UTF-8, replacement-substituted text otherwise.
pub open spec fn lossy_decode(b: Seq<u8>) -> Seq<char> {
    if valid_utf8(b) {
        decode_utf8(b)
    } else {
        replacement_decode(b)
    }
}

/// Relies on `str::from_utf8`: it succeeds exactly on valid UTF-8, and the
/// returned slice holds exactly the given bytes.
#[verifier::external_body]
pub fn utf8_to_str(b: &[u8]) -> (r: Option<&str>)
    ensures
        r is Some <==> valid_utf8(b@),
        r matches Some(s) ==> encode_utf8(s@) == b@,
{
    match std::str::from_utf8(b) {
        Ok(s) => Some(s),
        Err(_) => None,
    }
}

/// Relies on `String::from_utf8_lossy`: valid UTF-8 decodes to exactly its
/// characters, and on invalid sequences the replacement substitution
/// depends on the bytes alone.
#[verifier::external_body]
pub fn lossy_string(b: &[u8]) -> (r: String)
    ensures
        valid_utf8(b@) ==> r@ == decode_utf8(b@),
        !valid_utf8(b@) ==> r@ == replacement_decode(b@),
{
    String::from_utf8_lossy(b).into_owned()
}

/// Relies on `String` implementing `FromIterator<char>`: collecting
/// characters yields the string of exactly those characters.
#[verifier::external_body]
pub fn string_from_chars(v: &[char]) -> (r: String)
    ensures
        r@ == v@,
{
    v.iter().collect()
}

/// The characters of a string slice, in order.
pub fn chars_of(s: &str) -> (out: Vec<char>)
    ensures
        out@ == s@,
{
    let n = s.unicode_len();
    let mut out: Vec<char> = Vec::new();
    let mut i: usize = 0;
    while i < n
        invariant
            i <= n,
            n == s@.len(),
            out@ == s@.subrange(0, i as int),
        decreases n - i,
    {
        out.push(s.get_char(i));
        assert(out@ =~= s@.subrange(0, i + 1 as int));
        i = i + 1;
    }
    assert(s@.subrange(0, n as int) =~= s@);
    out
}

/// Appends the characters of a string slice to `out`.
pub fn push_str_chars(out: &mut Vec<char>, s: &str)
    ensures
        final(out)@ == old(out)@ + s@,
{
    let cs = chars_of(s);
    out.extend_from_slice(cs.as_slice());
}

} // verus!
