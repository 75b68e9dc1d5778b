//! Decimal rendering and parsing of the integer fields.
//!
//! The text formats carry `id` and `amount` as decimal numerals.  This module
//! gives the numerals a mathematical definition ([`dec_digits`], [`dec_u64`],
//! [`dec_i64`], [`spec_parse_u64`], [`spec_parse_i64`]), verified executable
//! counterparts, and the round-trip lemmas the codec laws rest on.  Parsing
//! accepts an optional leading sign followed by one or more decimal digits,
//! and rejects any value out of the target type's range.

use vstd::prelude::*;

verus! {

/// The digit character for a value below ten.
pub open spec fn digit_char(d: int) -> char
    recommends
        0 <= d < 10,
{
    if d == 0 {
        '0'
    } else if d == 1 {
        '1'
    } else if d == 2 {
        '2'
    } else if d == 3 {
        '3'
    } else if d == 4 {
        '4'
    } else if d == 5 {
        '5'
    } else if d == 6 {
        '6'
    } else if d == 7 {
        '7'
    } else if d == 8 {
        '8'
    } else {
        '9'
    }
}

/// The value of a digit character; ten for any character that is no digit.
pub open spec fn digit_val(c: char) -> nat {
    if c == '0' {
        0
    } else if c == '1' {
        1
    } else if c == '2' {
        2
    } else if c == '3' {
        3
    } else if c == '4' {
        4
    } else if c == '5' {
        5
    } else if c == '6' {
        6
    } else if c == '7' {
        7
    } else if c == '8' {
        8
    } else if c == '9' {
        9
    } else {
        10
    }
}

pub open spec fn is_digit(c: char) -> bool {
    digit_val(c) < 10
}

pub open spec fn all_digits(s: Seq<char>) -> bool {
    forall|i: int| 0 <= i < s.len() ==> is_digit(#[trigger] s[i])
}

/// The decimal numeral of a natural number, most significant digit first.
pub open spec fn dec_digits(n: nat) -> Seq<char>
    decreases n,
{
    if n < 10 {
        seq![digit_char(n as int)]
    } else {
        dec_digits(n / 10) + seq![digit_char((n % 10) as int)]
    }
}

/// The numeral of an unsigned 64-bit value.
pub open spec fn dec_u64(n: u64) -> Seq<char> {
    dec_digits(n as nat)
}

/// The numeral of a signed 64-bit value: a minus sign before the magnitude
/// when the value is negative.
pub open spec fn dec_i64(n: i64) -> Seq<char> {
    if n >= 0 {
        dec_digits(n as nat)
    } else {
        seq!['-'] + dec_digits((0 - n as int) as nat)
    }
}

/// The natural number a digit string denotes.
pub open spec fn dec_val(s: Seq<char>) -> nat
    decreases s.len(),
{
    if s.len() == 0 {
        0
    } else {
        dec_val(s.drop_last()) * 10 + digit_val(s.last())
    }
}

/// What `str::parse::<u64>` accepts: an optional `+`, then one or more
/// digits denoting a value that fits in the type.
pub open spec fn spec_parse_u64(s: Seq<char>) -> Option<u64> {
    let t = if s.len() > 0 && s[0] == '+' {
        s.drop_first()
    } else {
        s
    };
    if t.len() > 0 && all_digits(t) && dec_val(t) <= u64::MAX {
        Some(dec_val(t) as u64)
    } else {
        None
    }
}

/// What `str::parse::<i64>` accepts: an optional sign, then one or more
/// digits denoting a value that fits in the type.
pub open spec fn spec_parse_i64(s: Seq<char>) -> Option<i64> {
    if s.len() > 0 && s[0] == '-' {
        let t = s.drop_first();
        if t.len() > 0 && all_digits(t) && dec_val(t) <= 0x8000_0000_0000_0000 {
            Some((0 - dec_val(t) as int) as i64)
        } else {
            None
        }
    } else {
        let t = if s.len() > 0 && s[0] == '+' {
            s.drop_first()
        } else {
            s
        };
        if t.len() > 0 && all_digits(t) && dec_val(t) <= i64::MAX {
            Some(dec_val(t) as i64)
        } else {
            None
        }
    }
}

/// Every character of a numeral is a digit, and a numeral is never empty.
pub proof fn lemma_dec_digits_shape(n: nat)
    ensures
        all_digits(dec_digits(n)),
        dec_digits(n).len() >= 1,
    decreases n,
{
    if n >= 10 {
        lemma_dec_digits_shape(n / 10);
    }
}

/// A digit character carries exactly the value it was made from.
pub proof fn lemma_digit_round(d: int)
    requires
        0 <= d < 10,
    ensures
        digit_val(digit_char(d)) == d,
{
}

/// Reading a numeral back gives the number it was made from.
pub proof fn lemma_dec_val_dec_digits(n: nat)
    ensures
        dec_val(dec_digits(n)) == n,
    decreases n,
{
    if n < 10 {
        let s = dec_digits(n);
        assert(s == seq![digit_char(n as int)]);
        assert(s.len() == 1);
        assert(s.drop_last() =~= Seq::<char>::empty());
        assert(s.last() == digit_char(n as int));
        lemma_digit_round(n as int);
        assert(dec_val(s.drop_last()) == 0);
        assert(dec_val(s) == dec_val(s.drop_last()) * 10 + digit_val(s.last()));
        assert(dec_val(s) == n);
    } else {
        let s = dec_digits(n);
        lemma_dec_val_dec_digits(n / 10);
        assert(s == dec_digits(n / 10) + seq![digit_char((n % 10) as int)]);
        assert(s.len() >= 1);
        assert(s.drop_last() =~= dec_digits(n / 10));
        assert(s.last() == digit_char((n % 10) as int));
        lemma_digit_round((n % 10) as int);
        assert(dec_val(s) == dec_val(s.drop_last()) * 10 + digit_val(s.last()));
        assert(dec_val(s) == (n / 10) * 10 + n % 10);
        vstd::arithmetic::div_mod::lemma_fundamental_div_mod(n as int, 10);
        assert(dec_val(s) == n);
    }
}

/// One more digit multiplies the value by ten and adds the digit.
pub proof fn lemma_dec_val_step(s: Seq<char>, i: int)
    requires
        0 <= i < s.len(),
    ensures
        dec_val(s.subrange(0, i + 1)) == dec_val(s.subrange(0, i)) * 10 + digit_val(s[i]),
{
    assert(s.subrange(0, i + 1).drop_last() =~= s.subrange(0, i));
    assert(s.subrange(0, i + 1).last() == s[i]);
}

/// The value of a prefix never exceeds the value of a longer prefix.
pub proof fn lemma_dec_val_mono(s: Seq<char>, i: int, j: int)
    requires
        0 <= i <= j <= s.len(),
    ensures
        dec_val(s.subrange(0, i)) <= dec_val(s.subrange(0, j)),
    decreases j - i,
{
    if i < j {
        lemma_dec_val_mono(s, i, j - 1);
        lemma_dec_val_step(s, j - 1);
    }
}

/// Parsing the numeral of an unsigned value yields that value.
pub proof fn lemma_parse_u64_round(n: u64)
    ensures
        spec_parse_u64(dec_u64(n)) == Some(n),
{
    lemma_dec_digits_shape(n as nat);
    lemma_dec_val_dec_digits(n as nat);
    assert(dec_digits(n as nat)[0] != '+');
}

/// Parsing the numeral of a signed value yields that value.
pub proof fn lemma_parse_i64_round(n: i64)
    ensures
        spec_parse_i64(dec_i64(n)) == Some(n),
{
    if n >= 0 {
        lemma_dec_digits_shape(n as nat);
        lemma_dec_val_dec_digits(n as nat);
        assert(dec_digits(n as nat)[0] != '-');
        assert(dec_digits(n as nat)[0] != '+');
    } else {
        let m = (0 - n as int) as nat;
        lemma_dec_digits_shape(m);
        lemma_dec_val_dec_digits(m);
        assert(dec_i64(n)[0] == '-');
        assert(dec_i64(n).drop_first() =~= dec_digits(m));
    }
}

/// The digit character of a value below ten.
fn digit_char_of(d: u64) -> (c: char)
    requires
        d < 10,
    ensures
        c == digit_char(d as int),
{
    if d == 0 {
        '0'
    } else if d == 1 {
        '1'
    } else if d == 2 {
        '2'
    } else if d == 3 {
        '3'
    } else if d == 4 {
        '4'
    } else if d == 5 {
        '5'
    } else if d == 6 {
        '6'
    } else if d == 7 {
        '7'
    } else if d == 8 {
        '8'
    } else {
        '9'
    }
}

/// The value of a digit character, or ten when it is no digit.
fn digit_val_of(c: char) -> (d: u64)
    ensures
        d == digit_val(c),
{
    match c {
        '0' => 0,
        '1' => 1,
        '2' => 2,
        '3' => 3,
        '4' => 4,
        '5' => 5,
        '6' => 6,
        '7' => 7,
        '8' => 8,
        '9' => 9,
        _ => 10,
    }
}

/// Appends the decimal numeral of `n` to `out`.
pub fn push_u64_chars(out: &mut Vec<char>, n: u64)
    ensures
        final(out)@ == old(out)@ + dec_u64(n),
    decreases n,
{
    if n < 10 {
        out.push(digit_char_of(n));
    } else {
        push_u64_chars(out, n / 10);
        out.push(digit_char_of(n % 10));
        assert(out@ =~= old(out)@ + dec_digits(n as nat));
    }
}

/// Appends the decimal numeral of `n`, with a minus sign when negative.
pub fn push_i64_chars(out: &mut Vec<char>, n: i64)
    ensures
        final(out)@ == old(out)@ + dec_i64(n),
{
    if n >= 0 {
        push_u64_chars(out, n as u64);
    } else {
        out.push('-');
        let m: u64 = if n == i64::MIN {
            9223372036854775808u64
        } else {
            (-n) as u64
        };
        assert(m as nat == (0 - n as int) as nat);
        push_u64_chars(out, m);
        assert(out@ =~= old(out)@ + dec_i64(n));
    }
}

/// Reads the digits of `s` from `start` on, failing on an empty run, on a
/// character that is no digit, and on a value above `limit`.
fn parse_digits(s: &[char], start: usize, limit: u64) -> (r: Option<u64>)
    requires
        start <= s@.len(),
        limit >= 10,
    ensures
        ({
            let t = s@.subrange(start as int, s@.len() as int);
            match r {
                Some(v) => t.len() > 0 && all_digits(t) && dec_val(t) == v && v <= limit,
                None => !(t.len() > 0 && all_digits(t) && dec_val(t) <= limit),
            }
        }),
{
    let ghost t = s@.subrange(start as int, s@.len() as int);
    let n = s.len();
    if start == n {
        return None;
    }
    let mut acc: u64 = 0;
    let mut i: usize = start;
    while i < n
        invariant
            start <= i <= n,
            n == s@.len(),
            t == s@.subrange(start as int, n as int),
            acc <= limit,
            10 <= limit <= u64::MAX,
            all_digits(t.subrange(0, i - start)),
            acc == dec_val(t.subrange(0, i - start)),
        decreases n - i,
    {
        let c = s[i];
        assert(t[i - start] == c);
        let d = digit_val_of(c);
        proof {
            lemma_dec_val_step(t, i - start);
        }
        if d >= 10 {
            assert(!is_digit(t[i - start]));
            return None;
        }
        if acc > (limit - d) / 10 {
            proof {
                assert(dec_val(t.subrange(0, i - start + 1)) > limit);
                lemma_dec_val_mono(t, i - start + 1, t.len() as int);
                assert(t.subrange(0, t.len() as int) =~= t);
            }
            return None;
        }
        acc = acc * 10 + d;
        i = i + 1;
    }
    assert(t.subrange(0, i - start) =~= t);
    Some(acc)
}

/// Parses a decimal `u64`, as `str::parse` would.
pub fn parse_u64_chars(s: &[char]) -> (r: Option<u64>)
    ensures
        r == spec_parse_u64(s@),
{
    let start: usize = if s.len() > 0 && s[0] == '+' {
        1
    } else {
        0
    };
    proof {
        if s@.len() > 0 && s@[0] == '+' {
            assert(s@.subrange(1, s@.len() as int) =~= s@.drop_first());
        } else {
            assert(s@.subrange(0, s@.len() as int) =~= s@);
        }
    }
    parse_digits(s, start, u64::MAX)
}

/// Parses a decimal `i64`, as `str::parse` would.
pub fn parse_i64_chars(s: &[char]) -> (r: Option<i64>)
    ensures
        r == spec_parse_i64(s@),
{
    if s.len() > 0 && s[0] == '-' {
        proof {
            assert(s@.subrange(1, s@.len() as int) =~= s@.drop_first());
        }
        match parse_digits(s, 1, 0x8000_0000_0000_0000) {
            None => None,
            Some(m) => {
                let v: i64 = if m == 0x8000_0000_0000_0000 {
                    i64::MIN
                } else {
                    -(m as i64)
                };
                Some(v)
            },
        }
    } else {
        let start: usize = if s.len() > 0 && s[0] == '+' {
            1
        } else {
            0
        };
        proof {
            if s@.len() > 0 && s@[0] == '+' {
                assert(s@.subrange(1, s@.len() as int) =~= s@.drop_first());
            } else {
                assert(s@.subrange(0, s@.len() as int) =~= s@);
            }
        }
        match parse_digits(s, start, 0x7fff_ffff_ffff_ffff) {
            None => None,
            Some(m) => Some(m as i64),
        }
    }
}

} // verus!
