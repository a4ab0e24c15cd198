//! String-level offset arithmetic over 8-digit hexadecimal addresses.
//!
//! Addresses are unsigned 32-bit values written as strings of hexadecimal
//! digits: parsers accept one to eight digits, and arithmetic results are
//! re-padded to exactly eight upper-case digits.  An address decomposes into
//! matrix coordinates as `row` (the upper seven digits) and `column` (the
//! lowest digit).

use vstd::prelude::*;
use vstd::string::StrSliceExecFns;
use vstd::string::StringExecFns;

use crate::error::PeError;
use crate::hexnum::{
    all_hex_digits, hex_digit_val, hex_digits_upper, hex_lower_of, hex_val, lemma_hex_digits_upper_exact,
    lemma_hex_val_bound, lemma_pow16_increases, lemma_pow16_values, parse_hex32, pow16, valid_hex32,
};
use crate::hexnum;
use crate::text::{ascii_lower, contains_seq};
use crate::text;

verus! {

/// What `add_hex` returns: the 32-bit sum re-padded to eight upper-case
/// digits, or the error naming the first failure.
pub open spec fn add_hex_spec(a: Seq<char>, b: Seq<char>) -> Result<Seq<char>, PeError> {
    if !valid_hex32(a) || !valid_hex32(b) {
        Err(PeError::InvalidAddress)
    } else if hex_val(a) + hex_val(b) > 0xFFFF_FFFF {
        Err(PeError::ArithmeticOverflow)
    } else {
        Ok(hex_digits_upper(hex_val(a) + hex_val(b), 8))
    }
}

/// Adds two hexadecimal addresses; the sum must stay within 32 bits.
pub fn add_hex(a: &str, b: &str) -> (r: Result<String, PeError>)
    ensures
        match add_hex_spec(a@, b@) {
            Ok(s) => r is Ok && r.unwrap()@ == s,
            Err(e) => r == Err::<String, PeError>(e),
        },
{
    let va = match parse_hex32(a) {
        Ok(v) => v,
        Err(e) => {
            return Err(e);
        },
    };
    let vb = match parse_hex32(b) {
        Ok(v) => v,
        Err(e) => {
            return Err(e);
        },
    };
    let sum: u64 = (va as u64) + (vb as u64);
    if sum > 0xFFFF_FFFF {
        return Err(PeError::ArithmeticOverflow);
    }
    Ok(hexnum::hex_string_upper(sum as u32, 8))
}

/// Adds two hexadecimal addresses; it behaves exactly as `add_hex` and is
/// kept as a separate entry point for callers that add inside a loop.
pub fn add_hex_cycle(a: &str, b: &str) -> (r: Result<String, PeError>)
    ensures
        match add_hex_spec(a@, b@) {
            Ok(s) => r is Ok && r.unwrap()@ == s,
            Err(e) => r == Err::<String, PeError>(e),
        },
{
    add_hex(a, b)
}

/// What `sub_hex` returns: the difference re-padded to eight upper-case
/// digits, or the error naming the first failure.
pub open spec fn sub_hex_spec(a: Seq<char>, b: Seq<char>) -> Result<Seq<char>, PeError> {
    if !valid_hex32(a) || !valid_hex32(b) {
        Err(PeError::InvalidAddress)
    } else if hex_val(a) < hex_val(b) {
        Err(PeError::ArithmeticUnderflow)
    } else {
        Ok(hex_digits_upper((hex_val(a) - hex_val(b)) as nat, 8))
    }
}

/// Subtracts one hexadecimal address from another; the second must not be
/// larger than the first.
pub fn sub_hex(a: &str, b: &str) -> (r: Result<String, PeError>)
    ensures
        match sub_hex_spec(a@, b@) {
            Ok(s) => r is Ok && r.unwrap()@ == s,
            Err(e) => r == Err::<String, PeError>(e),
        },
{
    let va = match parse_hex32(a) {
        Ok(v) => v,
        Err(e) => {
            return Err(e);
        },
    };
    let vb = match parse_hex32(b) {
        Ok(v) => v,
        Err(e) => {
            return Err(e);
        },
    };
    if va < vb {
        return Err(PeError::ArithmeticUnderflow);
    }
    Ok(hexnum::hex_string_upper(va - vb, 8))
}

/// What `position1` returns: the row of an address, i.e. the value of its
/// upper seven digits.
pub open spec fn position1_spec(a: Seq<char>) -> Result<usize, PeError> {
    if a.len() == 8 && all_hex_digits(a) {
        Ok(hex_val(a.take(7)) as usize)
    } else {
        Err(PeError::InvalidAddress)
    }
}

/// The row coordinate of an 8-digit address within the byte matrix.
pub fn position1(a: &str) -> (r: Result<usize, PeError>)
    ensures
        r == position1_spec(a@),
{
    let n = a.unicode_len();
    if n != 8 {
        return Err(PeError::InvalidAddress);
    }
    let v = match parse_hex32(a) {
        Ok(v) => v,
        Err(e) => {
            return Err(e);
        },
    };
    proof {
        assert(a@.take(7) =~= a@.drop_last());
        assert(hex_val(a@) == 16 * hex_val(a@.drop_last()) + hex_digit_val(
            a@.last(),
        ));
        assert(hex_digit_val(a@.last()) < 16);
        assert((16 * hex_val(a@.drop_last()) + hex_digit_val(a@.last())) / 16
            == hex_val(a@.drop_last())) by (nonlinear_arith)
            requires hex_digit_val(a@.last()) < 16;
    }
    Ok((v / 16) as usize)
}

/// What `position2` returns: the column of an address, i.e. the value of its
/// lowest digit.
pub open spec fn position2_spec(a: Seq<char>) -> Result<usize, PeError> {
    if a.len() == 8 && all_hex_digits(a) {
        Ok(hex_val(a.skip(7)) as usize)
    } else {
        Err(PeError::InvalidAddress)
    }
}

/// The column coordinate of an 8-digit address within the byte matrix;
/// it always lies below 16.
pub fn position2(a: &str) -> (r: Result<usize, PeError>)
    ensures
        r == position2_spec(a@),
        r is Ok ==> r.unwrap() < 16,
{
    let n = a.unicode_len();
    if n != 8 {
        return Err(PeError::InvalidAddress);
    }
    let v = match parse_hex32(a) {
        Ok(v) => v,
        Err(e) => {
            return Err(e);
        },
    };
    proof {
        let tail = a@.skip(7);
        assert(tail.len() == 1);
        assert(tail.drop_last() =~= Seq::<char>::empty());
        assert(hex_val(tail.drop_last()) == 0);
        assert(hex_val(tail) == 16 * hex_val(tail.drop_last()) + hex_digit_val(tail.last()));
        assert(tail.last() == a@[7] == a@.last());
        assert(a@.take(7) =~= a@.drop_last());
        assert(hex_val(a@) == 16 * hex_val(a@.drop_last()) + hex_digit_val(
            a@.last(),
        ));
        assert(hex_digit_val(a@.last()) < 16);
        assert((16 * hex_val(a@.drop_last()) + hex_digit_val(a@.last())) % 16
            == hex_digit_val(a@.last())) by (nonlinear_arith)
            requires hex_digit_val(a@.last()) < 16;
    }
    Ok((v % 16) as usize)
}

/// What the comparisons return: the numeric order of the two addresses, or
/// `InvalidAddress` when either side does not parse.
pub open spec fn hex_compare_spec(a: Seq<char>, b: Seq<char>, gte: bool) -> Result<
    bool,
    PeError,
> {
    if !valid_hex32(a) || !valid_hex32(b) {
        Err(PeError::InvalidAddress)
    } else if gte {
        Ok(hex_val(a) >= hex_val(b))
    } else {
        Ok(hex_val(a) <= hex_val(b))
    }
}

/// Numeric `>=` on two hexadecimal addresses.
pub fn hex_compare1(a: &str, b: &str) -> (r: Result<bool, PeError>)
    ensures
        r == hex_compare_spec(a@, b@, true),
{
    let va = match parse_hex32(a) {
        Ok(v) => v,
        Err(e) => {
            return Err(e);
        },
    };
    let vb = match parse_hex32(b) {
        Ok(v) => v,
        Err(e) => {
            return Err(e);
        },
    };
    Ok(va >= vb)
}

/// Numeric `<=` on two hexadecimal addresses.
pub fn hex_compare2(a: &str, b: &str) -> (r: Result<bool, PeError>)
    ensures
        r == hex_compare_spec(a@, b@, false),
{
    let va = match parse_hex32(a) {
        Ok(v) => v,
        Err(e) => {
            return Err(e);
        },
    };
    let vb = match parse_hex32(b) {
        Ok(v) => v,
        Err(e) => {
            return Err(e);
        },
    };
    Ok(va <= vb)
}

/// Renders a byte slice as lower-case hexadecimal, two digits per byte.
pub fn vec_to_string(bytes: &[u8]) -> (r: String)
    ensures
        r@ == hex_lower_of(bytes@),
{
    let n = bytes.len();
    let mut out: Vec<u8> = Vec::new();
    let mut i: usize = 0;
    while i < n
        invariant
            0 <= i <= n,
            n == bytes@.len(),
            out@.map_values(|b: u8| b as char) == hex_lower_of(bytes@.take(i as int)),
            forall|k: int| 0 <= k < out@.len() ==> out@[k] < 0x80,
        decreases n - i,
    {
        let ghost prefix = out@;
        let mut pair = hexnum::hex_bytes_lower(bytes[i] as u32, 2);
        out.append(&mut pair);
        proof {
            assert(bytes@.take(i + 1).drop_last() =~= bytes@.take(i as int));
            assert(bytes@.take(i + 1).last() == bytes@[i as int]);
            assert(hex_lower_of(bytes@.take(i + 1)) == hex_lower_of(
                bytes@.take(i as int)) + crate::hexnum::pair_lower(bytes@[i as int]));
            assert((bytes@[i as int] as u32) as nat == bytes@[i as int] as nat);
            assert(out@.map_values(|b: u8| b as char) =~= hex_lower_of(
                bytes@.take(i + 1)));
        }
        i = i + 1;
    }
    proof {
        assert(bytes@.take(n as int) =~= bytes@);
    }
    hexnum::ascii_bytes_to_string(out)
}

/// ASCII-case-insensitive substring test: whether the folded `target`
/// occurs somewhere in the folded `query`.
pub fn fuzzy_search(query: &str, target: &str) -> (r: bool)
    ensures
        r == contains_seq(ascii_lower(query@), ascii_lower(target@)),
{
    let q = text::lower_chars(query);
    let t = text::lower_chars(target);
    text::contains_chars(&q, &t)
}

/// The matrix is well formed: every row holds exactly 16 cells.
pub open spec fn wf_matrix(m: Seq<Seq<Seq<char>>>) -> bool {
    forall|i: int| 0 <= i < m.len() ==> (#[trigger] m[i]).len() == 16
}

/// The concatenation of `k` matrix cells read backwards from `(b, c)`,
/// wrapping to column 15 of the previous row when the column underflows.
/// Anchored at a field's highest byte, this is the field's big-endian hex
/// string, i.e. a little-endian read of the underlying bytes.
pub open spec fn read_back(m: Seq<Seq<Seq<char>>>, k: nat, b: int, c: int) -> Seq<char>
    decreases k,
{
    if k == 0 {
        Seq::empty()
    } else if c == 0 {
        m[b][c] + read_back(m, (k - 1) as nat, b - 1, 15)
    } else {
        m[b][c] + read_back(m, (k - 1) as nat, b, c - 1)
    }
}

/// Reading one more cell appends the cell `k` steps back from `(b, c)`.
pub proof fn lemma_read_back_snoc(m: Seq<Seq<Seq<char>>>, k: nat, b: int, c: int)
    requires
        0 <= c < 16,
        0 <= 16 * b + c - k,
    ensures
        read_back(m, k + 1, b, c) == read_back(m, k, b, c) + m[(16 * b + c - k)
            / 16][(16 * b + c - k) % 16],
    decreases k,
{
    let idx = 16 * b + c - k;
    if k == 0 {
        assert(idx / 16 == b && idx % 16 == c) by (nonlinear_arith)
            requires idx == 16 * b + c, 0 <= c < 16;
        if c == 0 {
            assert(read_back(m, 1, b, c) == m[b][c] + read_back(m, 0, b - 1, 15));
            assert(read_back(m, 0, b - 1, 15) == Seq::<char>::empty());
        } else {
            assert(read_back(m, 1, b, c) == m[b][c] + read_back(m, 0, b, c - 1));
            assert(read_back(m, 0, b, c - 1) == Seq::<char>::empty());
        }
        assert(read_back(m, 0, b, c) == Seq::<char>::empty());
        assert(m[b][c] + Seq::<char>::empty() =~= m[b][c]);
        assert(Seq::<char>::empty() + m[b][c] =~= m[b][c]);
    } else {
        let nb: int = if c == 0 { b - 1 } else { b };
        let nc: int = if c == 0 { 15 } else { c - 1 };
        assert(16 * nb + nc == 16 * b + c - 1) by (nonlinear_arith)
            requires nb == (if c == 0 { b - 1int } else { b }), nc == (
                if c == 0 { 15int } else { c - 1 }), 0 <= c < 16;
        lemma_read_back_snoc(m, (k - 1) as nat, nb, nc);
        assert(read_back(m, k + 1, b, c) == m[b][c] + read_back(m, k, nb, nc));
        assert(read_back(m, k, b, c) == m[b][c] + read_back(
            m, (k - 1) as nat, nb, nc));
        assert(16 * nb + nc - (k - 1) == idx);
        let cell = m[idx / 16][idx % 16];
        assert(read_back(m, k, nb, nc) == read_back(m, (k - 1) as nat, nb, nc)
            + cell);
        assert(m[b][c] + (read_back(m, (k - 1) as nat, nb, nc) + cell)
            =~= (m[b][c] + read_back(m, (k - 1) as nat, nb, nc)) + cell);
    }
}

/// What `read_hex` returns: reading no cells yields the empty string, a
/// walk that stays inside a well-formed matrix yields the concatenated
/// cells, and any walk that would leave the matrix (a row out of range, a
/// column at 16 or beyond, a row that does not hold 16 cells, or more
/// cells than lie before the start position) is a typed failure rather
/// than an abort.
pub open spec fn read_hex_spec(m: Seq<Seq<Seq<char>>>, a: int, b: int, c: int) -> Result<
    Seq<char>,
    PeError,
> {
    if a <= 0 {
        Ok(Seq::empty())
    } else if wf_matrix(m) && b < m.len() && c < 16 && a <= 16 * b + c + 1 {
        Ok(read_back(m, a as nat, b, c))
    } else {
        Err(PeError::SectionTableOutOfBounds)
    }
}

/// Reads `a` matrix cells backwards starting at row `b`, column `c`,
/// concatenating them into one hex string; a multi-byte little-endian field
/// anchored at its highest byte comes out big-endian.  Bounds are validated
/// first: a walk that would leave the matrix reports
/// `SectionTableOutOfBounds`.
pub fn read_hex(matrix: &Vec<Vec<String>>, a: i8, b: usize, c: usize) -> (r: Result<
    String,
    PeError,
>)
    ensures
        match read_hex_spec(matrix.deep_view(), a as int, b as int, c as int) {
            Ok(s) => r is Ok && r.unwrap()@ == s,
            Err(e) => r == Err::<String, PeError>(e),
        },
{
    let ghost m = matrix.deep_view();
    proof {
        assert(forall|x: int, y: int|
            0 <= x < matrix@.len() && 0 <= y < matrix@[x]@.len()
                ==> #[trigger] matrix@[x]@[y]@ == m[x][y]);
        assert(m.len() == matrix@.len());
        assert(forall|x: int|
            0 <= x < matrix@.len() ==> (#[trigger] m[x]).len()
                == matrix@[x]@.len());
    }
    if a <= 0 {
        return Ok(String::new());
    }
    let rows = matrix.len();
    let mut wi: usize = 0;
    while wi < rows
        invariant
            a >= 1,
            0 <= wi <= rows,
            rows == matrix@.len(),
            m == matrix.deep_view(),
            forall|x: int|
                0 <= x < matrix@.len() ==> (#[trigger] m[x]).len()
                    == matrix@[x]@.len(),
            forall|x: int| 0 <= x < wi ==> (#[trigger] m[x]).len() == 16,
        decreases rows - wi,
    {
        if matrix[wi].len() != 16 {
            proof {
                assert(m[wi as int].len() != 16);
                assert(!wf_matrix(m));
            }
            return Err(PeError::SectionTableOutOfBounds);
        }
        wi = wi + 1;
    }
    proof {
        assert(wf_matrix(m));
    }
    if b >= rows || c >= 16 || (b < 8 && (a as usize) > 16 * b + c + 1) {
        return Err(PeError::SectionTableOutOfBounds);
    }
    proof {
        assert(a as int <= 16 * (b as int) + c + 1);
    }
    let k = a as usize;
    let mut s = String::new();
    let mut bb = b;
    let mut cc = c;
    let mut i: usize = 0;
    proof {
        assert(Seq::<char>::empty() =~= read_back(m, 0, b as int, c as int));
    }
    while i < k
        invariant
            0 <= i <= k,
            m == matrix.deep_view(),
            wf_matrix(m),
            b < matrix@.len(),
            c < 16,
            k <= 16 * b + c + 1,
            bb <= b,
            cc < 16,
            i < k ==> 16 * bb + cc == 16 * b + c - i,
            s@ == read_back(m, i as nat, b as int, c as int),
        decreases k - i,
    {
        proof {
            lemma_read_back_snoc(m, i as nat, b as int, c as int);
            assert((16 * (b as int) + c - i) / 16 == bb as int
                && (16 * (b as int) + c - i) % 16 == cc as int)
                by (nonlinear_arith)
                requires 16 * (bb as int) + cc == 16 * (b as int) + c - i,
                    0 <= cc < 16, 0 <= bb;
        }
        let cell = &matrix[bb][cc];
        s.append(cell.as_str());
        i = i + 1;
        if i < k {
            proof {
                assert(16 * (bb as int) + cc == 16 * (b as int) + c - (i - 1));
                assert(16 * (bb as int) + cc >= 1);
            }
            if cc == 0 {
                cc = 15;
                bb = bb - 1;
            } else {
                cc = cc - 1;
            }
        }
    }
    Ok(s)
}

/// Offset arithmetic is consistent: for eight-digit addresses whose sum
/// stays within 32 bits, adding `b` and then subtracting it again yields
/// `a`'s value, re-padded to eight digits; and an address decomposes into
/// its row and column so that `16 * row + column` is the address's value.
pub proof fn lemma_add_sub_round_trip(a: Seq<char>, b: Seq<char>)
    requires
        a.len() == 8,
        b.len() == 8,
        all_hex_digits(a),
        all_hex_digits(b),
        hex_val(a) + hex_val(b) <= 0xFFFF_FFFF,
    ensures
        add_hex_spec(a, b) is Ok,
        sub_hex_spec(add_hex_spec(a, b).unwrap(), b) == Ok::<Seq<char>, PeError>(
            hex_digits_upper(hex_val(a), 8),
        ),
        hex_val(add_hex_spec(a, b).unwrap()) == hex_val(a) + hex_val(b),
        position1_spec(a) is Ok,
        position2_spec(a) is Ok,
        16 * position1_spec(a).unwrap() + position2_spec(a).unwrap() == hex_val(a),
{
    lemma_pow16_values();
    let sum = hex_val(a) + hex_val(b);
    lemma_hex_digits_upper_exact(sum, 8);
    let s = hex_digits_upper(sum, 8);
    assert(add_hex_spec(a, b) == Ok::<Seq<char>, PeError>(s));
    assert(valid_hex32(s));
    assert(hex_val(s) == sum);
    lemma_hex_digits_upper_exact(hex_val(a), 8);
    assert(sub_hex_spec(s, b) == Ok::<Seq<char>, PeError>(hex_digits_upper(
        hex_val(a), 8)));
    assert(a.take(7) =~= a.drop_last());
    assert(hex_val(a) == 16 * hex_val(a.drop_last()) + hex_digit_val(a.last()));
    let tail = a.skip(7);
    assert(tail.len() == 1);
    assert(tail.drop_last() =~= Seq::<char>::empty());
    assert(hex_val(tail.drop_last()) == 0);
    assert(tail.last() == a[7] == a.last());
    assert(hex_val(tail) == 16 * hex_val(tail.drop_last()) + hex_digit_val(
        tail.last()));
    assert(hex_digit_val(a.last()) < 16);
    assert(all_hex_digits(a.take(7))) by {
        assert(forall|i: int| 0 <= i < 7 ==> a.take(7)[i] == #[trigger] a[i]);
    }
    lemma_hex_val_bound(a.take(7));
    lemma_pow16_increases(7, 8);
}

} // verus!
