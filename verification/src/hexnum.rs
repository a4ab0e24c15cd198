//! Hexadecimal digits, values and fixed-width renderings.
//!
//! Every address in the reader is an unsigned 32-bit value carried around as
//! a string of hexadecimal digits.  This module gives the mathematical
//! meaning of such strings (`hex_val`), the canonical upper- and lower-case
//! renderings of a value (`hex_digits_upper`, `hex_digits_lower`), decimal
//! renderings (`dec_digits`), and the executable parsers and formatters that
//! are proved against them.

use vstd::prelude::*;
use vstd::arithmetic::div_mod::lemma_mod_breakdown;
use vstd::arithmetic::div_mod::lemma_div_denominator;
use vstd::string::StrSliceExecFns;

use crate::error::PeError;

verus! {

/// True for the characters `0`-`9`, `a`-`f` and `A`-`F`.
pub open spec fn is_hex_digit(c: char) -> bool {
    ('0' <= c && c <= '9') || ('a' <= c && c <= 'f') || ('A' <= c && c <= 'F')
}

/// The numeric value of a hexadecimal digit (0 for other characters).
pub open spec fn hex_digit_val(c: char) -> nat {
    if '0' <= c && c <= '9' {
        (c as int - '0' as int) as nat
    } else if 'a' <= c && c <= 'f' {
        (c as int - 'a' as int + 10) as nat
    } else if 'A' <= c && c <= 'F' {
        (c as int - 'A' as int + 10) as nat
    } else {
        0
    }
}

/// Every character of `s` is a hexadecimal digit.
pub open spec fn all_hex_digits(s: Seq<char>) -> bool {
    forall|i: int| 0 <= i < s.len() ==> is_hex_digit(#[trigger] s[i])
}

/// A non-empty string of hexadecimal digits.
pub open spec fn valid_hex(s: Seq<char>) -> bool {
    s.len() >= 1 && all_hex_digits(s)
}

/// The unsigned value of a big-endian string of hexadecimal digits.
pub open spec fn hex_val(s: Seq<char>) -> nat
    decreases s.len(),
{
    if s.len() == 0 {
        0
    } else {
        16 * hex_val(s.drop_last()) + hex_digit_val(s.last())
    }
}

/// 16 to the power `n`.
pub open spec fn pow16(n: nat) -> nat
    decreases n,
{
    if n == 0 {
        1
    } else {
        16 * pow16((n - 1) as nat)
    }
}

/// The upper-case hexadecimal digit for a value below 16.
pub open spec fn hex_char_upper(d: nat) -> char {
    if d < 10 {
        (('0' as u8) + (d as u8)) as char
    } else {
        (('A' as u8) + ((d - 10) as u8)) as char
    }
}

/// The lower-case hexadecimal digit for a value below 16.
pub open spec fn hex_char_lower(d: nat) -> char {
    if d < 10 {
        (('0' as u8) + (d as u8)) as char
    } else {
        (('a' as u8) + ((d - 10) as u8)) as char
    }
}

/// `v` rendered as exactly `n` upper-case hexadecimal digits
/// (the value is taken modulo `16^n`).
pub open spec fn hex_digits_upper(v: nat, n: nat) -> Seq<char>
    decreases n,
{
    if n == 0 {
        Seq::empty()
    } else {
        hex_digits_upper(v / 16, (n - 1) as nat).push(hex_char_upper(v % 16))
    }
}

/// `v` rendered as exactly `n` lower-case hexadecimal digits.
pub open spec fn hex_digits_lower(v: nat, n: nat) -> Seq<char>
    decreases n,
{
    if n == 0 {
        Seq::empty()
    } else {
        hex_digits_lower(v / 16, (n - 1) as nat).push(hex_char_lower(v % 16))
    }
}

/// A byte as two lower-case hexadecimal digits.
pub open spec fn pair_lower(b: u8) -> Seq<char> {
    hex_digits_lower(b as nat, 2)
}

/// A byte as two upper-case hexadecimal digits.
pub open spec fn pair_upper(b: u8) -> Seq<char> {
    hex_digits_upper(b as nat, 2)
}

/// A byte sequence as lower-case hexadecimal, two digits per byte.
pub open spec fn hex_lower_of(bs: Seq<u8>) -> Seq<char>
    decreases bs.len(),
{
    if bs.len() == 0 {
        Seq::empty()
    } else {
        hex_lower_of(bs.drop_last()) + pair_lower(bs.last())
    }
}

/// The digits of each byte inside a hex rendering of a byte sequence.
pub proof fn lemma_hex_lower_of_index(bs: Seq<u8>)
    ensures
        hex_lower_of(bs).len() == 2 * bs.len(),
        forall|i: int|
            0 <= i < bs.len() ==> #[trigger] hex_lower_of(bs)[2 * i]
                == hex_char_lower((bs[i] / 16) as nat),
        forall|i: int|
            0 <= i < bs.len() ==> #[trigger] hex_lower_of(bs)[2 * i + 1]
                == hex_char_lower((bs[i] % 16) as nat),
    decreases bs.len(),
{
    if bs.len() > 0 {
        lemma_hex_lower_of_index(bs.drop_last());
        let last = bs.last();
        assert((last / 16) as nat % 16 == (last / 16) as nat)
            by (nonlinear_arith);
        assert(pair_lower(last) =~= seq![
            hex_char_lower((last / 16) as nat),
            hex_char_lower((last % 16) as nat),
        ]) by {
            assert(hex_digits_lower(last as nat, 2) == hex_digits_lower(
                last as nat / 16, 1).push(hex_char_lower(last as nat % 16)));
            assert(hex_digits_lower(last as nat / 16, 1)
                == hex_digits_lower(last as nat / 16 / 16, 0).push(
                hex_char_lower(last as nat / 16 % 16)));
        }
        assert(forall|i: int|
            0 <= i < bs.len() - 1 ==> #[trigger] bs.drop_last()[i] == bs[i]);
    }
}

/// `v` rendered in decimal, without leading zeros.
pub open spec fn dec_digits(v: nat) -> Seq<char>
    decreases v,
{
    if v < 10 {
        seq![(('0' as u8) + (v as u8)) as char]
    } else {
        dec_digits(v / 10).push((('0' as u8) + ((v % 10) as u8)) as char)
    }
}

/// The powers of 16 that bound 32- and 64-bit values.
pub proof fn lemma_pow16_values()
    ensures
        pow16(2) == 0x100,
        pow16(4) == 0x1_0000,
        pow16(7) == 0x1000_0000,
        pow16(8) == 0x1_0000_0000,
        pow16(16) == 0x1_0000_0000_0000_0000,
{
    reveal_with_fuel(pow16, 17);
}

/// Powers of 16 are positive.
pub proof fn lemma_pow16_pos(n: nat)
    ensures
        pow16(n) >= 1,
    decreases n,
{
    if n > 0 {
        lemma_pow16_pos((n - 1) as nat);
    }
}

pub proof fn lemma_pow16_increases(m: nat, n: nat)
    requires
        m <= n,
    ensures
        pow16(m) <= pow16(n),
    decreases n,
{
    if n > 0 && m < n {
        lemma_pow16_increases(m, (n - 1) as nat);
        assert(pow16(n) == 16 * pow16((n - 1) as nat));
    }
}

/// A string of hexadecimal digits of length `n` has a value below `16^n`.
pub proof fn lemma_hex_val_bound(s: Seq<char>)
    requires
        all_hex_digits(s),
    ensures
        hex_val(s) < pow16(s.len()),
    decreases s.len(),
{
    if s.len() > 0 {
        assert(all_hex_digits(s.drop_last())) by {
            assert(forall|i: int|
                0 <= i < s.len() - 1 ==> s.drop_last()[i] == #[trigger] s[i]);
        }
        lemma_hex_val_bound(s.drop_last());
        assert(hex_digit_val(s.last()) <= 15);
    }
}

/// Extending a digit string on the right multiplies its value by 16.
pub proof fn lemma_hex_val_step(s: Seq<char>, i: int)
    requires
        0 <= i < s.len(),
    ensures
        hex_val(s.take(i + 1)) == 16 * hex_val(s.take(i)) + hex_digit_val(s[i]),
{
    assert(s.take(i + 1).drop_last() =~= s.take(i));
    assert(s.take(i + 1).last() == s[i]);
}

/// The value of a fixed-width rendering is the value modulo `16^n`.
pub proof fn lemma_hex_digits_upper_val(v: nat, n: nat)
    ensures
        hex_digits_upper(v, n).len() == n,
        all_hex_digits(hex_digits_upper(v, n)),
        hex_val(hex_digits_upper(v, n)) == v % pow16(n),
    decreases n,
{
    if n == 0 {
        assert(v % 1 == 0) by (nonlinear_arith);
    } else {
        lemma_hex_digits_upper_val(v / 16, (n - 1) as nat);
        let tail = hex_digits_upper(v / 16, (n - 1) as nat);
        let whole = tail.push(hex_char_upper(v % 16));
        assert(whole.drop_last() =~= tail);
        assert(whole.last() == hex_char_upper(v % 16));
        assert(v % 16 < 16) by (nonlinear_arith);
        assert(is_hex_digit(hex_char_upper(v % 16)) && hex_digit_val(
            hex_char_upper(v % 16),
        ) == v % 16);
        assert(forall|i: int|
            0 <= i < whole.len() ==> is_hex_digit(#[trigger] whole[i]));
        lemma_pow16_pos((n - 1) as nat);
        lemma_mod_breakdown(v as int, 16, pow16((n - 1) as nat) as int);
        assert(pow16(n) == 16 * pow16((n - 1) as nat));
    }
}

/// The lower-case twin of `lemma_hex_digits_upper_val`.
pub proof fn lemma_hex_digits_lower_val(v: nat, n: nat)
    ensures
        hex_digits_lower(v, n).len() == n,
        all_hex_digits(hex_digits_lower(v, n)),
        hex_val(hex_digits_lower(v, n)) == v % pow16(n),
    decreases n,
{
    if n == 0 {
        assert(v % 1 == 0) by (nonlinear_arith);
    } else {
        lemma_hex_digits_lower_val(v / 16, (n - 1) as nat);
        let tail = hex_digits_lower(v / 16, (n - 1) as nat);
        let whole = tail.push(hex_char_lower(v % 16));
        assert(whole.drop_last() =~= tail);
        assert(whole.last() == hex_char_lower(v % 16));
        assert(v % 16 < 16) by (nonlinear_arith);
        assert(is_hex_digit(hex_char_lower(v % 16)) && hex_digit_val(
            hex_char_lower(v % 16),
        ) == v % 16);
        assert(forall|i: int|
            0 <= i < whole.len() ==> is_hex_digit(#[trigger] whole[i]));
        lemma_pow16_pos((n - 1) as nat);
        lemma_mod_breakdown(v as int, 16, pow16((n - 1) as nat) as int);
        assert(pow16(n) == 16 * pow16((n - 1) as nat));
    }
}

/// A value below `16^n` is recovered exactly from its `n`-digit rendering.
pub proof fn lemma_hex_digits_upper_exact(v: nat, n: nat)
    requires
        v < pow16(n),
    ensures
        hex_val(hex_digits_upper(v, n)) == v,
        hex_digits_upper(v, n).len() == n,
        all_hex_digits(hex_digits_upper(v, n)),
{
    lemma_hex_digits_upper_val(v, n);
    assert(v % pow16(n) == v) by (nonlinear_arith)
        requires 0 <= v < pow16(n);
}

/// A fixed-width rendering splits at any digit boundary.
pub proof fn lemma_hex_digits_lower_split(v: nat, m: nat, n: nat)
    ensures
        hex_digits_lower(v, m + n) == hex_digits_lower(v / pow16(n), m)
            + hex_digits_lower(v % pow16(n), n),
    decreases n,
{
    if n == 0 {
        assert(v / 1 == v) by (nonlinear_arith);
        assert(v % 1 == 0) by (nonlinear_arith);
        assert(hex_digits_lower(v, m + 0) =~= hex_digits_lower(v, m)
            + hex_digits_lower(0, 0));
    } else {
        let p = pow16((n - 1) as nat);
        lemma_hex_digits_lower_split(v / 16, m, (n - 1) as nat);
        lemma_pow16_pos((n - 1) as nat);
        lemma_div_denominator(v as int, 16, p as int);
        assert((v / 16) / p == v / (16 * p));
        assert(pow16(n) == 16 * p);
        lemma_mod_breakdown(v as int, 16, p as int);
        let r = (v % (16 * p)) as nat;
        assert(r == 16 * ((v / 16) % p) + v % 16);
        assert(r / 16 == (v / 16) % p && r % 16 == v % 16) by (nonlinear_arith)
            requires
                r == 16 * ((v / 16) % p) + v % 16,
                0 <= v % 16 < 16,
                0 <= (v / 16) % p,
        ;
        assert(hex_digits_lower(r, n) == hex_digits_lower((v / 16) % p,
            (n - 1) as nat).push(hex_char_lower(v % 16)));
        assert(hex_digits_lower(v, m + n) == hex_digits_lower(v / 16, (m + n - 1) as nat)
            .push(hex_char_lower(v % 16)));
        assert(hex_digits_lower(v / 16, (m + n - 1) as nat) == hex_digits_lower(
            v / (16 * p), m) + hex_digits_lower((v / 16) % p, (n - 1) as nat));
        assert((hex_digits_lower(v / (16 * p), m) + hex_digits_lower(
            (v / 16) % p, (n - 1) as nat)).push(hex_char_lower(v % 16))
            =~= hex_digits_lower(v / (16 * p), m) + hex_digits_lower(
            (v / 16) % p, (n - 1) as nat).push(hex_char_lower(v % 16)));
    }
}

/// Relies on `String::from_utf8`: a vector of bytes below `0x80` is valid
/// UTF-8 and decodes to exactly the characters with those code points.
#[verifier::external_body]
pub(crate) fn ascii_bytes_to_string(v: Vec<u8>) -> (r: String)
    requires
        forall|i: int| 0 <= i < v@.len() ==> v@[i] < 0x80,
    ensures
        r@ == v@.map_values(|b: u8| b as char),
{
    String::from_utf8(v).unwrap_or_default()
}

/// The upper-case hexadecimal digit of a value below 16, as an ASCII byte.
pub(crate) fn hex_digit_byte_upper(d: u8) -> (r: u8)
    requires
        d < 16,
    ensures
        r as char == hex_char_upper(d as nat),
        r < 0x80,
{
    if d < 10 {
        ('0' as u8) + d
    } else {
        ('A' as u8) + (d - 10)
    }
}

/// The lower-case hexadecimal digit of a value below 16, as an ASCII byte.
pub(crate) fn hex_digit_byte_lower(d: u8) -> (r: u8)
    requires
        d < 16,
    ensures
        r as char == hex_char_lower(d as nat),
        r < 0x80,
{
    if d < 10 {
        ('0' as u8) + d
    } else {
        ('a' as u8) + (d - 10)
    }
}

/// `v` as exactly `n` upper-case hexadecimal ASCII bytes.
pub(crate) fn hex_bytes_upper(v: u32, n: usize) -> (r: Vec<u8>)
    ensures
        r@.len() == n,
        r@.map_values(|b: u8| b as char) == hex_digits_upper(v as nat, n as nat),
        forall|i: int| 0 <= i < r@.len() ==> r@[i] < 0x80,
    decreases n,
{
    if n == 0 {
        let r: Vec<u8> = Vec::new();
        assert(r@.map_values(|b: u8| b as char) =~= hex_digits_upper(
            v as nat, 0));
        r
    } else {
        let mut r = hex_bytes_upper(v / 16, n - 1);
        let ghost prefix = r@;
        let d: u8 = (v % 16) as u8;
        let b = hex_digit_byte_upper(d);
        r.push(b);
        proof {
            assert(v as nat / 16 == (v / 16) as nat);
            assert(v as nat % 16 == (v % 16) as nat);
            assert(r@.map_values(|b: u8| b as char) =~= prefix.map_values(
                |b: u8| b as char).push(b as char));
        }
        r
    }
}

/// `v` as exactly `n` lower-case hexadecimal ASCII bytes.
pub(crate) fn hex_bytes_lower(v: u32, n: usize) -> (r: Vec<u8>)
    ensures
        r@.len() == n,
        r@.map_values(|b: u8| b as char) == hex_digits_lower(v as nat, n as nat),
        forall|i: int| 0 <= i < r@.len() ==> r@[i] < 0x80,
    decreases n,
{
    if n == 0 {
        let r: Vec<u8> = Vec::new();
        assert(r@.map_values(|b: u8| b as char) =~= hex_digits_lower(
            v as nat, 0));
        r
    } else {
        let mut r = hex_bytes_lower(v / 16, n - 1);
        let ghost prefix = r@;
        let d: u8 = (v % 16) as u8;
        let b = hex_digit_byte_lower(d);
        r.push(b);
        proof {
            assert(v as nat / 16 == (v / 16) as nat);
            assert(v as nat % 16 == (v % 16) as nat);
            assert(r@.map_values(|b: u8| b as char) =~= prefix.map_values(
                |b: u8| b as char).push(b as char));
        }
        r
    }
}

/// `v` as a string of exactly `n` upper-case hexadecimal digits.
pub(crate) fn hex_string_upper(v: u32, n: usize) -> (r: String)
    ensures
        r@ == hex_digits_upper(v as nat, n as nat),
{
    ascii_bytes_to_string(hex_bytes_upper(v, n))
}

/// `v` as a string of exactly `n` lower-case hexadecimal digits.
pub(crate) fn hex_string_lower(v: u32, n: usize) -> (r: String)
    ensures
        r@ == hex_digits_lower(v as nat, n as nat),
{
    ascii_bytes_to_string(hex_bytes_lower(v, n))
}

/// `v` in decimal, as ASCII bytes without leading zeros.
pub(crate) fn dec_bytes(v: u64) -> (r: Vec<u8>)
    ensures
        r@.map_values(|b: u8| b as char) == dec_digits(v as nat),
        forall|i: int| 0 <= i < r@.len() ==> r@[i] < 0x80,
    decreases v,
{
    if v < 10 {
        let mut r: Vec<u8> = Vec::new();
        r.push(('0' as u8) + (v as u8));
        assert(r@.map_values(|b: u8| b as char) =~= dec_digits(v as nat));
        r
    } else {
        assert(v / 10 < v) by (nonlinear_arith)
            requires v >= 10;
        let mut r = dec_bytes(v / 10);
        let ghost prefix = r@;
        r.push(('0' as u8) + ((v % 10) as u8));
        proof {
            assert(v as nat / 10 == (v / 10) as nat);
            assert(v as nat % 10 == (v % 10) as nat);
            assert(r@.map_values(|b: u8| b as char) =~= prefix.map_values(
                |b: u8| b as char).push(((('0' as u8) + ((v % 10) as u8))) as char));
        }
        r
    }
}

/// `v` as a decimal string without leading zeros.
pub(crate) fn dec_string(v: u64) -> (r: String)
    ensures
        r@ == dec_digits(v as nat),
{
    ascii_bytes_to_string(dec_bytes(v))
}

/// The value of a hexadecimal digit character, if it is one.
pub(crate) fn hex_digit_of(c: char) -> (r: Option<u8>)
    ensures
        r is Some <==> is_hex_digit(c),
        r is Some ==> r.unwrap() as nat == hex_digit_val(c) && r.unwrap() < 16,
{
    if '0' <= c && c <= '9' {
        Some((c as u8) - ('0' as u8))
    } else if 'a' <= c && c <= 'f' {
        Some((c as u8) - ('a' as u8) + 10)
    } else if 'A' <= c && c <= 'F' {
        Some((c as u8) - ('A' as u8) + 10)
    } else {
        None
    }
}

/// A string of one to eight hexadecimal digits, suitable for a 32-bit value.
pub open spec fn valid_hex32(s: Seq<char>) -> bool {
    1 <= s.len() <= 8 && all_hex_digits(s)
}

/// What `parse_hex32` returns for a given character sequence.
pub open spec fn parse_hex32_spec(s: Seq<char>) -> Result<u32, PeError> {
    if valid_hex32(s) {
        Ok(hex_val(s) as u32)
    } else {
        Err(PeError::InvalidAddress)
    }
}

/// Parses one to eight hexadecimal digits as an unsigned 32-bit value.
pub fn parse_hex32(s: &str) -> (r: Result<u32, PeError>)
    ensures
        r == parse_hex32_spec(s@),
        r is Ok ==> (r.unwrap() as nat) == hex_val(s@) && hex_val(s@) < 0x1_0000_0000,
{
    let n = s.unicode_len();
    if n < 1 || n > 8 {
        return Err(PeError::InvalidAddress);
    }
    let mut acc: u32 = 0;
    let mut i: usize = 0;
    while i < n
        invariant
            0 <= i <= n,
            1 <= n <= 8,
            n == s@.len(),
            all_hex_digits(s@.take(i as int)),
            acc as nat == hex_val(s@.take(i as int)),
            (acc as nat) < pow16(i as nat),
        decreases n - i,
    {
        let c = s.get_char(i);
        match hex_digit_of(c) {
            None => {
                return Err(PeError::InvalidAddress);
            },
            Some(d) => {
                proof {
                    lemma_hex_val_step(s@, i as int);
                    lemma_pow16_increases((i + 1) as nat, 8);
                    lemma_pow16_values();
                    assert(pow16((i + 1) as nat) == 16 * pow16(i as nat));
                }
                acc = acc * 16 + (d as u32);
                proof {
                    assert(s@.take(i + 1).drop_last() =~= s@.take(i as int));
                    assert(forall|j: int|
                        0 <= j < i + 1 ==> is_hex_digit(
                            #[trigger] s@.take(i + 1)[j]));
                }
                i = i + 1;
            },
        }
    }
    proof {
        assert(s@.take(n as int) =~= s@);
        lemma_hex_val_bound(s@);
        lemma_pow16_values();
        lemma_pow16_increases(s@.len(), 16);
    }
    Ok(acc)
}

/// A string of one to sixteen hexadecimal digits, suitable for a 64-bit value.
pub open spec fn valid_hex64(s: Seq<char>) -> bool {
    1 <= s.len() <= 16 && all_hex_digits(s)
}

/// What `parse_hex64` returns for a given character sequence.
pub open spec fn parse_hex64_spec(s: Seq<char>) -> Result<u64, PeError> {
    if valid_hex64(s) {
        Ok(hex_val(s) as u64)
    } else {
        Err(PeError::InvalidAddress)
    }
}

/// Parses one to sixteen hexadecimal digits as an unsigned 64-bit value.
pub fn parse_hex64(s: &str) -> (r: Result<u64, PeError>)
    ensures
        r == parse_hex64_spec(s@),
        r is Ok ==> (r.unwrap() as nat) == hex_val(s@) && hex_val(s@) < 0x1_0000_0000_0000_0000,
{
    let n = s.unicode_len();
    if n < 1 || n > 16 {
        return Err(PeError::InvalidAddress);
    }
    let mut acc: u64 = 0;
    let mut i: usize = 0;
    while i < n
        invariant
            0 <= i <= n,
            1 <= n <= 16,
            n == s@.len(),
            all_hex_digits(s@.take(i as int)),
            acc as nat == hex_val(s@.take(i as int)),
            (acc as nat) < pow16(i as nat),
        decreases n - i,
    {
        let c = s.get_char(i);
        match hex_digit_of(c) {
            None => {
                return Err(PeError::InvalidAddress);
            },
            Some(d) => {
                proof {
                    lemma_hex_val_step(s@, i as int);
                    lemma_pow16_increases((i + 1) as nat, 16);
                    lemma_pow16_values();
                    assert(pow16((i + 1) as nat) == 16 * pow16(i as nat));
                }
                acc = acc * 16 + (d as u64);
                proof {
                    assert(s@.take(i + 1).drop_last() =~= s@.take(i as int));
                    assert(forall|j: int|
                        0 <= j < i + 1 ==> is_hex_digit(
                            #[trigger] s@.take(i + 1)[j]));
                }
                i = i + 1;
            },
        }
    }
    proof {
        assert(s@.take(n as int) =~= s@);
        lemma_hex_val_bound(s@);
        lemma_pow16_values();
        lemma_pow16_increases(s@.len(), 16);
    }
    Ok(acc)
}

} // verus!
