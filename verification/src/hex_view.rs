//! Byte-level hex view: 16-byte display rows, single-byte edits, and
//! reassembly of the edited buffer.
//!
//! Each row carries its address label (eight upper-case digits), the bytes
//! as two upper-case digits each, keyed by their global byte index, and an
//! ASCII translation that shows `.` for bytes outside the printable range.
//! Row construction is independent per row, so the rows are built in
//! parallel and collected in address order.

use vstd::prelude::*;
use vstd::string::StrSliceExecFns;
use vstd::string::StringExecFns;
use rayon::prelude::ParallelIterator;
use rayon::prelude::IntoParallelIterator;

use crate::error::PeError;
use crate::hexnum::{
    all_hex_digits, hex_digits_upper, hex_val, is_hex_digit,
    lemma_hex_digits_upper_exact, lemma_pow16_values, parse_hex64_spec, valid_hex,
};
use crate::hexnum;

verus! {

/// One byte of the hex view: its global byte index and its two-digit value.
#[derive(Debug, Clone)]
pub struct ByteInformation {
    pub index: u64,
    pub bytes: String,
}

/// One 16-byte display row: address label, bytes, ASCII translation.
#[derive(Debug, Clone)]
pub struct AddressGroupInformation {
    pub address: String,
    pub bytes: Vec<ByteInformation>,
    pub translation: String,
}

/// The number of display rows of a buffer of `n` bytes.
pub open spec fn n_rows(n: nat) -> nat {
    (n + 15) / 16
}

/// The number of bytes of row `i`: 16, or fewer in a short last row.
pub open spec fn row_len(n: nat, i: int) -> nat {
    if 16 * i + 16 <= n {
        16
    } else {
        (n - 16 * i) as nat
    }
}

/// The translation of one byte: itself if printable, else a dot.
pub open spec fn trans_char(b: u8) -> char {
    if 0x21 <= b && b <= 0x7E {
        b as char
    } else {
        '.'
    }
}

/// Row `i` of the view of buffer `b`: the address label is the row's first
/// byte offset as eight upper-case digits, each byte is keyed by its global
/// index and rendered as two upper-case digits, and the translation shows
/// printable bytes as themselves and a dot otherwise.
pub open spec fn row_ok(b: Seq<u8>, i: int, g: AddressGroupInformation) -> bool {
    &&& g.address@ == hex_digits_upper((16 * i) as nat, 8)
    &&& g.bytes@.len() == row_len(b.len(), i)
    &&& forall|j: int|
        0 <= j < g.bytes@.len() ==> (#[trigger] g.bytes@[j]).index == 16 * i + j
    &&& forall|j: int|
        0 <= j < g.bytes@.len() ==> (#[trigger] g.bytes@[j]).bytes@
            == hex_digits_upper(b[16 * i + j] as nat, 2)
    &&& g.translation@ == Seq::new(row_len(b.len(), i), |j: int| trans_char(b[16 * i + j]))
}

/// The whole view of buffer `b`: one matching row per 16-byte group.
pub open spec fn rows_ok(b: Seq<u8>, rows: Seq<AddressGroupInformation>) -> bool {
    &&& rows.len() == n_rows(b.len())
    &&& forall|i: int| 0 <= i < rows.len() ==> row_ok(b, i, #[trigger] rows[i])
}

/// Builds display row `i` of the buffer.
pub fn build_row(file_buf: &Vec<u8>, i: usize) -> (g: AddressGroupInformation)
    requires
        (i as nat) < n_rows(file_buf@.len()),
        file_buf@.len() <= 0x1_0000_0000,
    ensures
        row_ok(file_buf@, i as int, g),
{
    let n = file_buf.len();
    proof {
        assert(16 * (i as int) < n) by (nonlinear_arith)
            requires (i as nat) < (n + 15) / 16, n == file_buf@.len();
    }
    let start: usize = i * 16;
    let end: usize = if n - start >= 16 {
        start + 16
    } else {
        n
    };
    let address = hexnum::hex_string_upper(start as u32, 8);
    let mut bytes: Vec<ByteInformation> = Vec::new();
    let mut trans: Vec<u8> = Vec::new();
    let mut j: usize = start;
    while j < end
        invariant
            start <= j <= end,
            start == 16 * i,
            end - start == row_len(file_buf@.len(), i as int),
            end <= file_buf@.len(),
            n == file_buf@.len(),
            n <= 0x1_0000_0000,
            bytes@.len() == j - start,
            forall|k: int|
                0 <= k < bytes@.len() ==> (#[trigger] bytes@[k]).index
                    == start + k,
            forall|k: int|
                0 <= k < bytes@.len() ==> (#[trigger] bytes@[k]).bytes@
                    == hex_digits_upper(file_buf@[start + k] as nat, 2),
            trans@.len() == j - start,
            forall|k: int|
                0 <= k < trans@.len() ==> #[trigger] trans@[k] < 0x80
                    && trans@[k] as char == trans_char(file_buf@[start + k]),
        decreases end - j,
    {
        let b = file_buf[j];
        bytes.push(ByteInformation {
            index: j as u64,
            bytes: hexnum::hex_string_upper(b as u32, 2),
        });
        if 0x21 <= b && b <= 0x7E {
            trans.push(b);
        } else {
            trans.push(0x2E);
            proof {
                assert(('.' as u8) == 0x2E);
            }
        }
        j = j + 1;
    }
    let translation = hexnum::ascii_bytes_to_string(trans);
    proof {
        assert(translation@ =~= Seq::new(
            row_len(file_buf@.len(), i as int),
            |k: int| trans_char(file_buf@[16 * (i as int) + k]),
        ));
    }
    AddressGroupInformation { address, bytes, translation }
}

/// Relies on rayon's parallel range iterator: `map` over `0..count`
/// followed by `collect` yields one element per index, in index order; each
/// element is produced by the verified `build_row`.
#[verifier::external_body]
fn par_build_rows(file_buf: &Vec<u8>, count: usize) -> (r: Vec<AddressGroupInformation>)
    requires
        count as nat == n_rows(file_buf@.len()),
        file_buf@.len() <= 0x1_0000_0000,
    ensures
        r@.len() == count,
        forall|i: int| 0 <= i < count ==> row_ok(file_buf@, i, #[trigger] r@[i]),
{
    (0..count).into_par_iter().map(|i| build_row(file_buf, i)).collect()
}

/// Builds the whole hex view of a buffer, one row per 16-byte group, in
/// address order.  The buffer must fit the view's 32-bit address labels.
pub fn get_address_group_information_from_file_buf(file_buf: Vec<u8>) -> (r: Vec<
    AddressGroupInformation,
>)
    requires
        file_buf@.len() <= 0x1_0000_0000,
    ensures
        rows_ok(file_buf@, r@),
{
    let n = file_buf.len();
    let rem: usize = if n % 16 == 0 {
        0
    } else {
        1
    };
    let count = n / 16 + rem;
    proof {
        assert(n / 16 + (if n % 16 == 0 { 0int } else { 1int }) == (n + 15) / 16)
            by (nonlinear_arith);
    }
    par_build_rows(&file_buf, count)
}

/// Replaces the two-digit value of every view byte whose index equals the
/// parsed hexadecimal `index`, leaving addresses, translations and all
/// other bytes unchanged; an unparsable index changes nothing and reports
/// `InvalidAddress`.
pub fn update_file_byte(
    info: &mut Vec<AddressGroupInformation>,
    index: &str,
    byte: &str,
) -> (r: Result<(), PeError>)
    ensures
        match parse_hex64_spec(index@) {
            Err(e) => r == Err::<(), PeError>(e) && final(info)@ == old(info)@,
            Ok(v) => {
                &&& r is Ok
                &&& final(info)@.len() == old(info)@.len()
                &&& forall|i: int|
                    0 <= i < old(info)@.len() ==> {
                        let g0 = old(info)@[i];
                        let g1 = #[trigger] final(info)@[i];
                        &&& g1.address == g0.address
                        &&& g1.translation == g0.translation
                        &&& g1.bytes@.len() == g0.bytes@.len()
                        &&& forall|j: int|
                            0 <= j < g0.bytes@.len() ==> {
                                let b0 = g0.bytes@[j];
                                let b1 = #[trigger] g1.bytes@[j];
                                &&& b1.index == b0.index
                                &&& (b0.index == v ==> b1.bytes@ == byte@)
                                &&& (b0.index != v ==> b1.bytes == b0.bytes)
                            }
                    }
            },
        },
{
    let v = match hexnum::parse_hex64(index) {
        Ok(v) => v,
        Err(e) => {
            return Err(e);
        },
    };
    let mut updated: Vec<AddressGroupInformation> = Vec::new();
    let mut i: usize = 0;
    while i < info.len()
        invariant
            0 <= i <= info@.len(),
            Ok::<u64, PeError>(v) == parse_hex64_spec(index@),
            updated@.len() == i,
            forall|k: int|
                0 <= k < i ==> {
                    let g0 = info@[k];
                    let g1 = #[trigger] updated@[k];
                    &&& g1.address == g0.address
                    &&& g1.translation == g0.translation
                    &&& g1.bytes@.len() == g0.bytes@.len()
                    &&& forall|j: int|
                        0 <= j < g0.bytes@.len() ==> {
                            let b0 = g0.bytes@[j];
                            let b1 = #[trigger] g1.bytes@[j];
                            &&& b1.index == b0.index
                            &&& (b0.index == v ==> b1.bytes@ == byte@)
                            &&& (b0.index != v ==> b1.bytes == b0.bytes)
                        }
                },
        decreases info@.len() - i,
    {
        let g = &info[i];
        let mut row_bytes_vec: Vec<ByteInformation> = Vec::new();
        let mut j: usize = 0;
        while j < g.bytes.len()
            invariant
                0 <= j <= g.bytes@.len(),
                *g == info@[i as int],
                0 <= i < info@.len(),
                row_bytes_vec@.len() == j,
                forall|k: int|
                    0 <= k < j ==> {
                        let b0 = info@[i as int].bytes@[k];
                        let b1 = #[trigger] row_bytes_vec@[k];
                        &&& b1.index == b0.index
                        &&& (b0.index == v ==> b1.bytes@ == byte@)
                        &&& (b0.index != v ==> b1.bytes == b0.bytes)
                    },
            decreases g.bytes@.len() - j,
        {
            let bi = &g.bytes[j];
            if bi.index == v {
                row_bytes_vec.push(ByteInformation {
                    index: bi.index,
                    bytes: String::from_str(byte),
                });
            } else {
                row_bytes_vec.push(ByteInformation {
                    index: bi.index,
                    bytes: bi.bytes.clone(),
                });
            }
            j = j + 1;
        }
        updated.push(AddressGroupInformation {
            address: g.address.clone(),
            bytes: row_bytes_vec,
            translation: g.translation.clone(),
        });
        i = i + 1;
    }
    *info = updated;
    Ok(())
}

/// The byte value of a view cell: its hexadecimal value when it parses and
/// fits a byte, zero otherwise.
pub open spec fn byte_or_zero(s: Seq<char>) -> u8 {
    if valid_hex(s) && hex_val(s) <= 255 {
        hex_val(s) as u8
    } else {
        0
    }
}

/// The bytes one display row contributes to the reassembled buffer.
pub open spec fn row_bytes(g: AddressGroupInformation) -> Seq<u8> {
    g.bytes@.map_values(|bi: ByteInformation| byte_or_zero(bi.bytes@))
}

/// The reassembled buffer: every row's bytes, in row order.
pub open spec fn reassemble_spec(rows: Seq<AddressGroupInformation>) -> Seq<u8>
    decreases rows.len(),
{
    if rows.len() == 0 {
        Seq::empty()
    } else {
        row_bytes(rows[0]) + reassemble_spec(rows.drop_first())
    }
}

/// Parses a view cell's value, yielding zero for anything that is not a
/// byte in hexadecimal.
pub(crate) fn parse_byte_or_zero(s: &str) -> (r: u8)
    ensures
        r == byte_or_zero(s@),
{
    let n = s.unicode_len();
    if n == 0 {
        return 0;
    }
    let mut acc: u32 = 0;
    let mut i: usize = 0;
    while i < n
        invariant
            0 <= i <= n,
            n == s@.len(),
            all_hex_digits(s@.take(i as int)),
            acc <= 256,
            acc as nat == (if hex_val(s@.take(i as int)) >= 256 {
                256nat
            } else {
                hex_val(s@.take(i as int))
            }),
        decreases n - i,
    {
        let c = s.get_char(i);
        let d = match hexnum::hex_digit_of(c) {
            Some(d) => d,
            None => {
                proof {
                    assert(!is_hex_digit(s@[i as int]));
                }
                return 0;
            },
        };
        proof {
            crate::hexnum::lemma_hex_val_step(s@, i as int);
            assert(s@.take(i + 1).drop_last() =~= s@.take(i as int));
            assert(forall|k: int|
                0 <= k < i + 1 ==> is_hex_digit(#[trigger] s@.take(i + 1)[k]));
        }
        let t: u32 = acc * 16 + (d as u32);
        if t >= 256 {
            acc = 256;
        } else {
            acc = t;
        }
        i = i + 1;
    }
    proof {
        assert(s@.take(n as int) =~= s@);
    }
    if acc <= 255 {
        acc as u8
    } else {
        0
    }
}

/// Reassembles the full buffer from the display rows, in row order, with
/// zero for any cell that does not parse as a byte.
pub fn reassemble(info: &Vec<AddressGroupInformation>) -> (r: Vec<u8>)
    ensures
        r@ == reassemble_spec(info@),
{
    let mut r: Vec<u8> = Vec::new();
    let mut i: usize = 0;
    while i < info.len()
        invariant
            0 <= i <= info@.len(),
            r@ == reassemble_spec(info@.take(i as int)),
        decreases info@.len() - i,
    {
        let g = &info[i];
        let mut j: usize = 0;
        while j < g.bytes.len()
            invariant
                0 <= j <= g.bytes@.len(),
                *g == info@[i as int],
                0 <= i < info@.len(),
                r@ == reassemble_spec(info@.take(i as int)) + row_bytes(
                    info@[i as int],
                ).take(j as int),
            decreases g.bytes@.len() - j,
        {
            let b = parse_byte_or_zero((&g.bytes[j]).bytes.as_str());
            r.push(b);
            proof {
                assert(row_bytes(info@[i as int])[j as int] == byte_or_zero(
                    info@[i as int].bytes@[j as int].bytes@));
                assert(r@ =~= reassemble_spec(info@.take(i as int)) + row_bytes(
                    info@[i as int]).take(j + 1));
            }
            j = j + 1;
        }
        proof {
            lemma_reassemble_snoc(info@, i as int);
            assert(row_bytes(info@[i as int]).take(g.bytes@.len() as int)
                =~= row_bytes(info@[i as int]));
        }
        i = i + 1;
    }
    proof {
        assert(info@.take(info@.len() as int) =~= info@);
    }
    r
}

/// Appending one row to a prefix appends its bytes to the reassembly.
pub proof fn lemma_reassemble_snoc(rows: Seq<AddressGroupInformation>, i: int)
    requires
        0 <= i < rows.len(),
    ensures
        reassemble_spec(rows.take(i + 1)) == reassemble_spec(rows.take(i))
            + row_bytes(rows[i]),
    decreases i,
{
    if i == 0 {
        assert(rows.take(1).drop_first() =~= Seq::<AddressGroupInformation>::empty());
        assert(reassemble_spec(rows.take(1)) == row_bytes(rows[0])
            + reassemble_spec(Seq::<AddressGroupInformation>::empty()));
        assert(rows.take(0) =~= Seq::<AddressGroupInformation>::empty());
        assert(row_bytes(rows[0]) + Seq::<u8>::empty() =~= row_bytes(rows[0]));
        assert(Seq::<u8>::empty() + row_bytes(rows[0]) =~= row_bytes(rows[0]));
    } else {
        let t = rows.drop_first();
        assert(rows.take(i + 1).drop_first() =~= t.take(i));
        assert(rows.take(i).drop_first() =~= t.take(i - 1));
        assert(rows.take(i + 1)[0] == rows[0]);
        assert(rows.take(i)[0] == rows[0]);
        lemma_reassemble_snoc(t, i - 1);
        assert(t[i - 1] == rows[i]);
        assert(reassemble_spec(rows.take(i + 1)) == row_bytes(rows[0])
            + (reassemble_spec(t.take(i - 1)) + row_bytes(rows[i])));
        assert(row_bytes(rows[0]) + (reassemble_spec(t.take(i - 1))
            + row_bytes(rows[i])) =~= (row_bytes(rows[0]) + reassemble_spec(
            t.take(i - 1))) + row_bytes(rows[i]));
    }
}

/// The hex-view round trip: reassembling the rows built from any buffer
/// yields that buffer back, byte for byte.
pub proof fn lemma_hex_view_round_trip(b: Seq<u8>, rows: Seq<AddressGroupInformation>)
    requires
        b.len() <= 0x1_0000_0000,
        rows_ok(b, rows),
    ensures
        reassemble_spec(rows) == b,
{
    lemma_round_trip_prefix(b, rows, rows.len() as int);
    assert(16 * rows.len() >= b.len()) by (nonlinear_arith)
        requires rows.len() == (b.len() + 15) / 16;
    assert(rows.take(rows.len() as int) =~= rows);
    assert(b.take(b.len() as int) =~= b);
}

proof fn lemma_round_trip_prefix(b: Seq<u8>, rows: Seq<AddressGroupInformation>, i: int)
    requires
        b.len() <= 0x1_0000_0000,
        rows_ok(b, rows),
        0 <= i <= rows.len(),
    ensures
        reassemble_spec(rows.take(i)) == b.take(
            if 16 * i <= b.len() {
                16 * i
            } else {
                b.len() as int
            },
        ),
    decreases i,
{
    if i == 0 {
        assert(rows.take(0) =~= Seq::<AddressGroupInformation>::empty());
        assert(b.take(0) =~= Seq::<u8>::empty());
    } else {
        lemma_round_trip_prefix(b, rows, i - 1);
        lemma_reassemble_snoc(rows, i - 1);
        let g = rows[i - 1];
        assert(row_ok(b, i - 1, g));
        let lo: int = 16 * (i - 1);
        let hi: int = if 16 * i <= b.len() {
            16 * i
        } else {
            b.len() as int
        };
        assert(lo + row_len(b.len(), i - 1) == hi) by (nonlinear_arith)
            requires
                rows_ok(b, rows),
                0 < i <= rows.len(),
                rows.len() == (b.len() + 15) / 16,
                lo == 16 * (i - 1),
                hi == (if 16 * i <= b.len() { 16 * i } else { b.len() as int }),
                row_len(b.len(), i - 1) == (if 16 * (i - 1) + 16 <= b.len() {
                    16nat
                } else {
                    (b.len() - 16 * (i - 1)) as nat
                }),
        ;
        assert(row_bytes(g) =~= b.subrange(lo, hi)) by {
            assert(row_bytes(g).len() == row_len(b.len(), i - 1));
            assert forall|j: int| 0 <= j < row_bytes(g).len() implies row_bytes(
                g,
            )[j] == b[lo + j] by {
                assert(g.bytes@[j].bytes@ == hex_digits_upper(
                    b[16 * (i - 1) + j] as nat,
                    2,
                ));
                lemma_pow16_values();
                lemma_hex_digits_upper_exact(b[16 * (i - 1) + j] as nat, 2);
                assert(byte_or_zero(g.bytes@[j].bytes@) == b[16 * (i - 1) + j]);
            }
        }
        assert(b.take(lo) + b.subrange(lo, hi) =~= b.take(hi));
    }
}

/// The relation `update_file_byte` leaves between the old and the new
/// rows for a resolved index `v` and a stored cell value `byte`.
pub open spec fn edited_rows(
    rows: Seq<AddressGroupInformation>,
    edited: Seq<AddressGroupInformation>,
    v: u64,
    byte: Seq<char>,
) -> bool {
    &&& edited.len() == rows.len()
    &&& forall|i: int|
        0 <= i < rows.len() ==> {
            let g0 = rows[i];
            let g1 = #[trigger] edited[i];
            &&& g1.bytes@.len() == g0.bytes@.len()
            &&& forall|j: int|
                0 <= j < g0.bytes@.len() ==> {
                    let b0 = g0.bytes@[j];
                    let b1 = #[trigger] g1.bytes@[j];
                    &&& b1.index == b0.index
                    &&& (b0.index == v ==> b1.bytes@ == byte)
                    &&& (b0.index != v ==> b1.bytes == b0.bytes)
                }
        }
}

/// A single edit touches a single byte: editing index `v` of the view of
/// buffer `b` and reassembling yields `b` with only byte `v` replaced by
/// the parsed cell value, and `b` unchanged when `v` lies beyond it.
pub proof fn lemma_edit_round_trip(
    b: Seq<u8>,
    rows: Seq<AddressGroupInformation>,
    edited: Seq<AddressGroupInformation>,
    v: u64,
    byte: Seq<char>,
)
    requires
        b.len() <= 0x1_0000_0000,
        rows_ok(b, rows),
        edited_rows(rows, edited, v, byte),
    ensures
        reassemble_spec(edited) == (if (v as int) < b.len() {
            b.update(v as int, byte_or_zero(byte))
        } else {
            b
        }),
{
    let target: Seq<u8> = if (v as int) < b.len() {
        b.update(v as int, byte_or_zero(byte))
    } else {
        b
    };
    lemma_edit_prefix(b, rows, edited, v, byte, rows.len() as int);
    assert(16 * rows.len() >= b.len()) by (nonlinear_arith)
        requires rows.len() == (b.len() + 15) / 16;
    assert(edited.take(edited.len() as int) =~= edited);
    assert(target.take(target.len() as int) =~= target);
}

proof fn lemma_edit_prefix(
    b: Seq<u8>,
    rows: Seq<AddressGroupInformation>,
    edited: Seq<AddressGroupInformation>,
    v: u64,
    byte: Seq<char>,
    i: int,
)
    requires
        b.len() <= 0x1_0000_0000,
        rows_ok(b, rows),
        edited_rows(rows, edited, v, byte),
        0 <= i <= rows.len(),
    ensures
        reassemble_spec(edited.take(i)) == (if (v as int) < b.len() {
            b.update(v as int, byte_or_zero(byte))
        } else {
            b
        }).take(
            if 16 * i <= b.len() {
                16 * i
            } else {
                b.len() as int
            },
        ),
    decreases i,
{
    let target: Seq<u8> = if (v as int) < b.len() {
        b.update(v as int, byte_or_zero(byte))
    } else {
        b
    };
    if i == 0 {
        assert(edited.take(0) =~= Seq::<AddressGroupInformation>::empty());
        assert(target.take(0) =~= Seq::<u8>::empty());
    } else {
        lemma_edit_prefix(b, rows, edited, v, byte, i - 1);
        lemma_reassemble_snoc(edited, i - 1);
        let g0 = rows[i - 1];
        let g1 = edited[i - 1];
        assert(row_ok(b, i - 1, g0));
        let lo: int = 16 * (i - 1);
        let hi: int = if 16 * i <= b.len() {
            16 * i
        } else {
            b.len() as int
        };
        assert(lo + row_len(b.len(), i - 1) == hi) by (nonlinear_arith)
            requires
                rows_ok(b, rows),
                0 < i <= rows.len(),
                rows.len() == (b.len() + 15) / 16,
                lo == 16 * (i - 1),
                hi == (if 16 * i <= b.len() { 16 * i } else { b.len() as int }),
                row_len(b.len(), i - 1) == (if 16 * (i - 1) + 16 <= b.len() {
                    16nat
                } else {
                    (b.len() - 16 * (i - 1)) as nat
                }),
        ;
        assert(row_bytes(g1) =~= target.subrange(lo, hi)) by {
            assert(g1.bytes@.len() == row_len(b.len(), i - 1));
            assert forall|j: int| 0 <= j < row_bytes(g1).len() implies row_bytes(
                g1,
            )[j] == target[lo + j] by {
                assert(g0.bytes@[j].index == 16 * (i - 1) + j);
                if g0.bytes@[j].index == v {
                    assert(g1.bytes@[j].bytes@ == byte);
                    assert(lo + j == v as int);
                    assert(lo + j < b.len());
                    assert(target[lo + j] == byte_or_zero(byte));
                } else {
                    assert(g1.bytes@[j].bytes == g0.bytes@[j].bytes);
                    assert(g0.bytes@[j].bytes@ == hex_digits_upper(
                        b[lo + j] as nat,
                        2,
                    ));
                    lemma_pow16_values();
                    lemma_hex_digits_upper_exact(b[lo + j] as nat, 2);
                    assert(byte_or_zero(g1.bytes@[j].bytes@) == b[lo + j]);
                    assert(lo + j != v as int);
                    assert(target[lo + j] == b[lo + j]);
                }
            }
        }
        assert(target.take(lo) + target.subrange(lo, hi) =~= target.take(hi));
    }
}

} // verus!
