//! The PE reader: from a hexadecimal dump of a buffer to a `PeStudy`.
//!
//! The input string is split into two-digit pairs (a trailing odd digit is
//! ignored) and laid out as a matrix of 16 cells per row, the last row
//! padded with `"00"` cells.  The structural locator then resolves the
//! header chain over the byte values, and the byname extractor gathers the
//! imported names.  Addresses that were read out of the file keep the
//! matrix's lower-case digits; addresses produced by offset arithmetic are
//! rendered as eight upper-case digits, as `pe_tools::add_hex` renders its
//! sums.

use vstd::prelude::*;
use vstd::string::StrSliceExecFns;
use vstd::string::StringExecFns;

use crate::error::PeError;
use crate::hexnum::{
    hex_digit_val, hex_digits_lower, hex_digits_upper, hex_lower_of, is_hex_digit,
};
use crate::hexnum;
use crate::locator::{layout_of, pad16, padded_len, LayoutModel};
use crate::locator;

verus! {

/// Every character that belongs to a full two-digit pair is a hexadecimal
/// digit (a trailing odd digit is never read).
pub open spec fn hex_pairs_ok(s: Seq<char>) -> bool {
    forall|i: int| 0 <= i < 2 * (s.len() / 2) ==> is_hex_digit(#[trigger] s[i])
}

/// The byte values of the two-digit pairs of `s`.
pub open spec fn bytes_of_hex(s: Seq<char>) -> Seq<u8> {
    Seq::new(
        s.len() / 2,
        |i: int| (16 * hex_digit_val(s[2 * i]) + hex_digit_val(s[2 * i + 1])) as u8,
    )
}

/// The byte matrix of a buffer: 16 cells per row, each cell the byte as two
/// lower-case digits, the last row padded with `"00"` cells.
pub open spec fn matrix_of(b: Seq<u8>) -> Seq<Seq<Seq<char>>> {
    Seq::new(
        padded_len(b.len()) / 16,
        |r: int| Seq::new(16, |c: int| hex_digits_lower(pad16(b)[16 * r + c] as nat, 2)),
    )
}

/// The structural findings of one analysis, every address rendered as a
/// hexadecimal string.
///
/// The field names follow the reader's resolution order: `import_real`
/// holds the import directory RVA as it was read from the file,
/// `iat_shifting` the import directory's translated file offset, `iat_real`
/// the IAT's translated file offset, `byname_shifting` the byname RVA as
/// read, and `byname_real` the byname table's translated file offset.
#[derive(Debug)]
pub struct PeStudy {
    pub pe_head: String,
    pub subsection_size: String,
    pub optional_head_size: String,
    pub subsection_information: Vec<Vec<String>>,
    pub import_real: String,
    pub iat_shifting: String,
    pub iat_real: String,
    pub byname_shifting: String,
    pub byname_real: String,
    pub byname_information: Vec<String>,
    pub pe_study: Vec<Vec<String>>,
    pub field_name: String,
    pub field_size: String,
}

/// The study reports exactly the model resolved from `bytes`: read fields
/// keep the matrix's lower-case digits, translated addresses are rendered
/// upper-case, and the byname tokens are the hex renderings of the
/// extracted runs.
pub open spec fn study_matches(
    s: PeStudy,
    m: LayoutModel,
    bytes: Seq<u8>,
    name: Seq<char>,
    size: Seq<char>,
) -> bool {
    &&& s.pe_head@ == hex_digits_lower(m.pe_head as nat, 8)
    &&& s.subsection_size@ == hex_digits_lower(m.section_count as nat, 2)
    &&& s.optional_head_size@ == hex_digits_lower(m.opt_size as nat, 4)
    &&& s.subsection_information.deep_view() == m.sections.map_values(
        |e: crate::locator::SectionEntry|
            seq![
                hex_digits_lower(e.virtual_address as nat, 8),
                hex_digits_lower(e.file_offset as nat, 8),
            ],
    )
    &&& s.import_real@ == hex_digits_lower(m.import_rva as nat, 8)
    &&& s.iat_shifting@ == hex_digits_upper(m.import_file as nat, 8)
    &&& s.iat_real@ == hex_digits_upper(m.iat_file as nat, 8)
    &&& s.byname_shifting@ == hex_digits_lower(m.byname_rva as nat, 8)
    &&& s.byname_real@ == hex_digits_upper(m.byname_file as nat, 8)
    &&& s.byname_information.deep_view() == m.tokens.map_values(
        |t: Seq<u8>| hex_lower_of(t),
    )
    &&& s.pe_study.deep_view() == matrix_of(bytes)
    &&& s.field_name@ == name
    &&& s.field_size@ == size
}

/// Splits a hexadecimal dump into its byte values, pair by pair.
pub(crate) fn parse_pairs(s: &str) -> (r: Result<Vec<u8>, PeError>)
    ensures
        r is Ok <==> hex_pairs_ok(s@),
        r is Ok ==> r.unwrap()@ == bytes_of_hex(s@),
        r is Err ==> r.unwrap_err() == PeError::InvalidAddress,
        r is Ok ==> r.unwrap()@.len() == s@.len() / 2,
        r is Ok ==> r.unwrap()@.len() + 16 <= usize::MAX,
{
    let n = s.unicode_len();
    let m = n / 2;
    proof {
        assert(n / 2 + 16 <= usize::MAX) by (nonlinear_arith)
            requires n <= usize::MAX;
    }
    let mut v: Vec<u8> = Vec::new();
    let mut i: usize = 0;
    while i < m
        invariant
            0 <= i <= m,
            m == s@.len() / 2,
            n == s@.len(),
            v@ == bytes_of_hex(s@).take(i as int),
            forall|k: int| 0 <= k < 2 * i ==> is_hex_digit(#[trigger] s@[k]),
        decreases m - i,
    {
        let c1 = s.get_char(2 * i);
        let c2 = s.get_char(2 * i + 1);
        let d1 = match hexnum::hex_digit_of(c1) {
            Some(d) => d,
            None => {
                proof {
                    assert(!is_hex_digit(s@[2 * (i as int)]));
                }
                return Err(PeError::InvalidAddress);
            },
        };
        let d2 = match hexnum::hex_digit_of(c2) {
            Some(d) => d,
            None => {
                proof {
                    assert(!is_hex_digit(s@[2 * (i as int) + 1]));
                }
                return Err(PeError::InvalidAddress);
            },
        };
        v.push(16 * d1 + d2);
        proof {
            assert(v@ =~= bytes_of_hex(s@).take(i + 1));
        }
        i = i + 1;
    }
    proof {
        assert(v@ =~= bytes_of_hex(s@));
    }
    Ok(v)
}

/// Lays the buffer out as the byte matrix, 16 lower-case cells per row.
pub(crate) fn build_matrix(b: &Vec<u8>) -> (r: Vec<Vec<String>>)
    requires
        b@.len() + 16 <= usize::MAX,
    ensures
        r.deep_view() == matrix_of(b@),
{
    let plen = locator::padded_len_exec(b);
    let rows = plen / 16;
    proof {
        locator::lemma_padded_len(b@.len());
        assert(padded_len(b@.len()) / 16 * 16 == padded_len(b@.len()))
            by (nonlinear_arith)
            requires padded_len(b@.len()) % 16 == 0;
    }
    let mut r: Vec<Vec<String>> = Vec::new();
    let mut i: usize = 0;
    while i < rows
        invariant
            0 <= i <= rows,
            rows as nat == padded_len(b@.len()) / 16,
            (rows * 16) as nat == padded_len(b@.len()),
            b@.len() + 16 <= usize::MAX,
            r@.len() == i,
            forall|k: int|
                0 <= k < i ==> #[trigger] r@[k].deep_view()
                    == matrix_of(b@)[k],
        decreases rows - i,
    {
        let mut row: Vec<String> = Vec::new();
        let mut c: usize = 0;
        while c < 16
            invariant
                0 <= c <= 16,
                0 <= i < rows,
                rows as nat == padded_len(b@.len()) / 16,
                (rows * 16) as nat == padded_len(b@.len()),
                b@.len() + 16 <= usize::MAX,
                row@.len() == c,
                forall|k: int|
                    0 <= k < c ==> #[trigger] row@[k]@ == hex_digits_lower(
                        pad16(b@)[16 * (i as int) + k] as nat,
                        2,
                    ),
            decreases 16 - c,
        {
            proof {
                assert((i * 16 + c) < rows * 16) by (nonlinear_arith)
                    requires i < rows, c < 16;
            }
            let byte = locator::padded_get(b, i * 16 + c);
            let cell = hexnum::hex_string_lower(byte as u32, 2);
            proof {
                assert((byte as u32) as nat == byte as nat);
            }
            row.push(cell);
            c = c + 1;
        }
        proof {
            assert(row.deep_view() =~~= matrix_of(b@)[i as int]);
        }
        r.push(row);
        i = i + 1;
    }
    proof {
        assert(r.deep_view() =~~= matrix_of(b@));
    }
    r
}

/// Reads a PE image from a hexadecimal dump of its bytes.
///
/// The returned study carries the resolved header fields, the section
/// table, the chased import/IAT/byname offsets, the extracted import names
/// (as hexadecimal tokens) and the byte matrix itself, together with the
/// caller-supplied display name and size.  Failures are exactly those of
/// `locator::layout_of`, plus `InvalidAddress` when the dump itself is not
/// hexadecimal.
pub fn read_exe_file(hex_string: String, file_name: String, file_size: String) -> (r: Result<
    PeStudy,
    PeError,
>)
    ensures
        !hex_pairs_ok(hex_string@) ==> r is Err && r.unwrap_err()
            == PeError::InvalidAddress,
        hex_pairs_ok(hex_string@) ==> match layout_of(bytes_of_hex(hex_string@)) {
            Err(e) => r is Err && r.unwrap_err() == e,
            Ok(m) => r is Ok && study_matches(
                r.unwrap(),
                m,
                bytes_of_hex(hex_string@),
                file_name@,
                file_size@,
            ),
        },
{
    let bytes = match parse_pairs(hex_string.as_str()) {
        Ok(v) => v,
        Err(e) => {
            return Err(e);
        },
    };
    let layout = match locator::read_layout(&bytes) {
        Ok(l) => l,
        Err(e) => {
            return Err(e);
        },
    };
    let matrix = build_matrix(&bytes);

    let mut subsection_information: Vec<Vec<String>> = Vec::new();
    let mut i: usize = 0;
    let ghost sections_model = layout.sections@;
    while i < layout.sections.len()
        invariant
            0 <= i <= layout.sections@.len(),
            layout.sections@ == sections_model,
            subsection_information@.len() == i,
            forall|k: int|
                0 <= k < i ==> #[trigger] subsection_information@[k].deep_view()
                    == seq![
                    hex_digits_lower(sections_model[k].virtual_address as nat, 8),
                    hex_digits_lower(sections_model[k].file_offset as nat, 8),
                ],
        decreases layout.sections@.len() - i,
    {
        let e = layout.sections[i];
        let mut pair: Vec<String> = Vec::new();
        pair.push(hexnum::hex_string_lower(e.virtual_address, 8));
        pair.push(hexnum::hex_string_lower(e.file_offset, 8));
        proof {
            assert(pair.deep_view() =~= seq![
                hex_digits_lower(e.virtual_address as nat, 8),
                hex_digits_lower(e.file_offset as nat, 8),
            ]);
        }
        subsection_information.push(pair);
        i = i + 1;
    }
    proof {
        assert(subsection_information.deep_view() =~~= sections_model.map_values(
            |e: crate::locator::SectionEntry|
                seq![
                    hex_digits_lower(e.virtual_address as nat, 8),
                    hex_digits_lower(e.file_offset as nat, 8),
                ],
        ));
    }

    let mut byname_information: Vec<String> = Vec::new();
    let ghost tokens_model = layout.tokens.deep_view();
    let mut j: usize = 0;
    proof {
        assert(forall|k: int|
            0 <= k < layout.tokens@.len() ==> #[trigger] layout.tokens@[k]@
                == tokens_model[k]);
    }
    while j < layout.tokens.len()
        invariant
            0 <= j <= layout.tokens@.len(),
            layout.tokens.deep_view() == tokens_model,
            tokens_model.len() == layout.tokens@.len(),
            forall|k: int|
                0 <= k < layout.tokens@.len() ==> #[trigger] layout.tokens@[k]@
                    == tokens_model[k],
            byname_information@.len() == j,
            forall|k: int|
                0 <= k < j ==> #[trigger] byname_information@[k]@
                    == hex_lower_of(tokens_model[k]),
        decreases layout.tokens@.len() - j,
    {
        let tok = crate::pe_tools::vec_to_string((&layout.tokens[j]).as_slice());
        byname_information.push(tok);
        j = j + 1;
    }
    proof {
        assert(byname_information.deep_view() =~~= tokens_model.map_values(
            |t: Seq<u8>| hex_lower_of(t)));
    }

    Ok(PeStudy {
        pe_head: hexnum::hex_string_lower(layout.pe_head, 8),
        subsection_size: hexnum::hex_string_lower(layout.section_count, 2),
        optional_head_size: hexnum::hex_string_lower(layout.opt_size, 4),
        subsection_information,
        import_real: hexnum::hex_string_lower(layout.import_rva, 8),
        iat_shifting: hexnum::hex_string_upper(layout.import_file, 8),
        iat_real: hexnum::hex_string_upper(layout.iat_file, 8),
        byname_shifting: hexnum::hex_string_lower(layout.byname_rva, 8),
        byname_real: hexnum::hex_string_upper(layout.byname_file, 8),
        byname_information,
        pe_study: matrix,
        field_name: file_name,
        field_size: file_size,
    })
}

/// The character a two-digit pair decodes to: the ASCII character of its
/// byte value, or `.` when the pair is not hexadecimal or not ASCII.
pub open spec fn decoded_pair(c1: char, c2: char) -> char {
    if is_hex_digit(c1) && is_hex_digit(c2) && 16 * hex_digit_val(c1)
        + hex_digit_val(c2) < 0x80 {
        (((16 * hex_digit_val(c1) + hex_digit_val(c2)) as u8) as char)
    } else {
        '.'
    }
}

/// A hexadecimal token decoded to text, pair by pair (a trailing odd digit
/// is ignored).
pub open spec fn ascii_of_hex(t: Seq<char>) -> Seq<char> {
    Seq::new(t.len() / 2, |i: int| decoded_pair(t[2 * i], t[2 * i + 1]))
}

/// One section row's cells, each followed by a tab.
pub open spec fn section_items(items: Seq<Seq<char>>, j: int) -> Seq<char>
    decreases items.len() - j,
{
    if j < 0 || j >= items.len() {
        Seq::empty()
    } else {
        items[j] + "\t"@ + section_items(items, j + 1)
    }
}

/// One line of the report's section table.
pub open spec fn section_line(row: Seq<Seq<char>>, i: int) -> Seq<char> {
    "Section "@ + crate::hexnum::dec_digits((i + 1) as nat)
        + " (offset, real address):\t"@ + section_items(row, 0) + "\n"@
}

/// The report's section-table lines from row `i` on.
pub open spec fn section_lines(rows: Seq<Seq<Seq<char>>>, i: int) -> Seq<char>
    decreases rows.len() - i,
{
    if i < 0 || i >= rows.len() {
        Seq::empty()
    } else {
        section_line(rows[i], i) + section_lines(rows, i + 1)
    }
}

/// The report's decoded import-name lines from token `i` on.
pub open spec fn name_lines(toks: Seq<Seq<char>>, i: int) -> Seq<char>
    decreases toks.len() - i,
{
    if i < 0 || i >= toks.len() {
        Seq::empty()
    } else {
        ascii_of_hex(toks[i]) + "\n"@ + name_lines(toks, i + 1)
    }
}

/// The full report text for a study and a detection result.
pub open spec fn report_spec(s: PeStudy, result: Seq<char>) -> Seq<char> {
    "===== PE Study Report =====\n\n"@ + "1. File Information\n"@
        + "File name: "@ + s.field_name@ + "\n"@ + "File size: "@
        + s.field_size@ + "\n"@ + "Result: "@ + result + "\n\n"@
        + "2. PE Structure\n"@ + "PE header: "@ + s.pe_head@ + "\n"@
        + "Optional header size: "@ + s.optional_head_size@ + "\n"@
        + "Section count: "@ + s.subsection_size@ + "\n"@
        + "Section table:\n"@ + section_lines(
        s.subsection_information.deep_view(),
        0,
    ) + "Import table real address: "@ + s.import_real@ + "\n"@
        + "IAT offset: "@ + s.iat_shifting@ + "\n"@ + "IAT real address: "@
        + s.iat_real@ + "\n"@ + "Byname offset: "@ + s.byname_shifting@
        + "\n"@ + "Byname real address: "@ + s.byname_real@ + "\n\n"@
        + "3. Imported system function names:\n"@ + name_lines(
        s.byname_information.deep_view(),
        0,
    ) + "=============================\n"@
}

/// Decodes a hexadecimal token to text, pair by pair.
pub(crate) fn decode_token(t: &str) -> (r: String)
    ensures
        r@ == ascii_of_hex(t@),
{
    let n = t.unicode_len();
    let m = n / 2;
    let mut v: Vec<u8> = Vec::new();
    let mut i: usize = 0;
    while i < m
        invariant
            0 <= i <= m,
            m == t@.len() / 2,
            n == t@.len(),
            v@.len() == i,
            forall|k: int| 0 <= k < i ==> v@[k] < 0x80,
            forall|k: int|
                0 <= k < i ==> (#[trigger] v@[k]) as char == decoded_pair(
                    t@[2 * k],
                    t@[2 * k + 1],
                ),
        decreases m - i,
    {
        let c1 = t.get_char(2 * i);
        let c2 = t.get_char(2 * i + 1);
        let b: u8 = match (hexnum::hex_digit_of(c1), hexnum::hex_digit_of(c2)) {
            (Some(d1), Some(d2)) => {
                let x: u8 = 16 * d1 + d2;
                if x < 0x80 {
                    x
                } else {
                    0x2E
                }
            },
            _ => 0x2E,
        };
        proof {
            assert(('.' as u8) == 0x2E);
        }
        v.push(b);
        i = i + 1;
    }
    let r = hexnum::ascii_bytes_to_string(v);
    proof {
        assert(r@ =~= ascii_of_hex(t@));
    }
    r
}

impl PeStudy {
    /// An empty study: every field blank, the size zero bytes.
    pub fn new() -> (r: Self)
        ensures
            r.pe_head@ == Seq::<char>::empty(),
            r.subsection_size@ == Seq::<char>::empty(),
            r.optional_head_size@ == Seq::<char>::empty(),
            r.subsection_information@.len() == 0,
            r.import_real@ == Seq::<char>::empty(),
            r.iat_shifting@ == Seq::<char>::empty(),
            r.iat_real@ == Seq::<char>::empty(),
            r.byname_shifting@ == Seq::<char>::empty(),
            r.byname_real@ == Seq::<char>::empty(),
            r.byname_information@.len() == 0,
            r.pe_study@.len() == 0,
            r.field_name@ == Seq::<char>::empty(),
            r.field_size@ == "0 byte"@,
    {
        PeStudy {
            pe_head: String::new(),
            subsection_size: String::new(),
            optional_head_size: String::new(),
            subsection_information: Vec::new(),
            import_real: String::new(),
            iat_shifting: String::new(),
            iat_real: String::new(),
            byname_shifting: String::new(),
            byname_real: String::new(),
            byname_information: Vec::new(),
            pe_study: Vec::new(),
            field_name: String::new(),
            field_size: String::from_str("0 byte"),
        }
    }

    /// Renders the report text for this study and a detection result, as
    /// `report_spec` lays it out.
    pub fn generate_report(&self, result: String) -> (r: String)
        ensures
            r@ == report_spec(*self, result@),
    {
        let mut rep = String::from_str("===== PE Study Report =====\n\n");
        rep.append("1. File Information\n");
        rep.append("File name: ");
        rep.append(self.field_name.as_str());
        rep.append("\n");
        rep.append("File size: ");
        rep.append(self.field_size.as_str());
        rep.append("\n");
        rep.append("Result: ");
        rep.append(result.as_str());
        rep.append("\n\n");
        rep.append("2. PE Structure\n");
        rep.append("PE header: ");
        rep.append(self.pe_head.as_str());
        rep.append("\n");
        rep.append("Optional header size: ");
        rep.append(self.optional_head_size.as_str());
        rep.append("\n");
        rep.append("Section count: ");
        rep.append(self.subsection_size.as_str());
        rep.append("\n");
        rep.append("Section table:\n");

        let ghost rows_dv = self.subsection_information.deep_view();
        let ghost pre = rep@;
        let mut i: usize = 0;
        while i < self.subsection_information.len()
            invariant
                0 <= i <= self.subsection_information@.len(),
                rows_dv == self.subsection_information.deep_view(),
                rows_dv.len() == self.subsection_information@.len(),
                pre + section_lines(rows_dv, 0) == rep@ + section_lines(
                    rows_dv,
                    i as int,
                ),
            decreases self.subsection_information@.len() - i,
        {
            let mut line = String::from_str("Section ");
            let ds = hexnum::dec_string((i as u64) + 1);
            line.append(ds.as_str());
            line.append(" (offset, real address):\t");
            let row = &self.subsection_information[i];
            let ghost row_dv = rows_dv[i as int];
            proof {
                assert(row_dv.len() == row@.len());
                assert(forall|k: int|
                    0 <= k < row@.len() ==> #[trigger] row@[k]@ == row_dv[k]);
            }
            let mut items = String::new();
            proof {
                assert(Seq::<char>::empty() + section_items(row_dv, 0)
                    =~= section_items(row_dv, 0));
            }
            let mut j: usize = 0;
            while j < row.len()
                invariant
                    0 <= j <= row@.len(),
                    row_dv.len() == row@.len(),
                    forall|k: int|
                        0 <= k < row@.len() ==> #[trigger] row@[k]@ == row_dv[k],
                    items@ + section_items(row_dv, j as int) == section_items(
                        row_dv,
                        0,
                    ),
                decreases row@.len() - j,
            {
                let ghost items0 = items@;
                items.append(row[j].as_str());
                items.append("\t");
                proof {
                    assert(section_items(row_dv, j as int) == row_dv[j as int]
                        + "\t"@ + section_items(row_dv, j + 1));
                    assert(items0 + (row_dv[j as int] + "\t"@ + section_items(
                        row_dv, j + 1)) =~= ((items0 + row_dv[j as int])
                        + "\t"@) + section_items(row_dv, j + 1));
                }
                j = j + 1;
            }
            proof {
                assert(section_items(row_dv, row@.len() as int)
                    == Seq::<char>::empty());
                assert(items@ + Seq::<char>::empty() =~= items@);
            }
            line.append(items.as_str());
            line.append("\n");
            proof {
                assert(line@ == section_line(row_dv, i as int));
            }
            let ghost rep0 = rep@;
            rep.append(line.as_str());
            proof {
                assert(section_lines(rows_dv, i as int) == section_line(
                    rows_dv[i as int], i as int) + section_lines(
                    rows_dv, i + 1));
                assert(rep0 + (line@ + section_lines(rows_dv, i + 1))
                    =~= (rep0 + line@) + section_lines(rows_dv, i + 1));
            }
            i = i + 1;
        }
        proof {
            assert(section_lines(rows_dv, rows_dv.len() as int)
                == Seq::<char>::empty());
            assert(rep@ + Seq::<char>::empty() =~= rep@);
            assert(rep@ == pre + section_lines(rows_dv, 0));
        }

        rep.append("Import table real address: ");
        rep.append(self.import_real.as_str());
        rep.append("\n");
        rep.append("IAT offset: ");
        rep.append(self.iat_shifting.as_str());
        rep.append("\n");
        rep.append("IAT real address: ");
        rep.append(self.iat_real.as_str());
        rep.append("\n");
        rep.append("Byname offset: ");
        rep.append(self.byname_shifting.as_str());
        rep.append("\n");
        rep.append("Byname real address: ");
        rep.append(self.byname_real.as_str());
        rep.append("\n\n");
        rep.append("3. Imported system function names:\n");

        let ghost toks_dv = self.byname_information.deep_view();
        let ghost pre2 = rep@;
        let mut t: usize = 0;
        proof {
            assert(forall|k: int|
                0 <= k < self.byname_information@.len()
                    ==> #[trigger] self.byname_information@[k]@ == toks_dv[k]);
        }
        while t < self.byname_information.len()
            invariant
                0 <= t <= self.byname_information@.len(),
                toks_dv == self.byname_information.deep_view(),
                toks_dv.len() == self.byname_information@.len(),
                forall|k: int|
                    0 <= k < self.byname_information@.len()
                        ==> #[trigger] self.byname_information@[k]@ == toks_dv[k],
                pre2 + name_lines(toks_dv, 0) == rep@ + name_lines(
                    toks_dv,
                    t as int,
                ),
            decreases self.byname_information@.len() - t,
        {
            let mut piece = decode_token(self.byname_information[t].as_str());
            piece.append("\n");
            let ghost rep0 = rep@;
            rep.append(piece.as_str());
            proof {
                assert(name_lines(toks_dv, t as int) == ascii_of_hex(
                    toks_dv[t as int]) + "\n"@ + name_lines(toks_dv, t + 1));
                assert(piece@ == ascii_of_hex(toks_dv[t as int]) + "\n"@);
                assert(rep0 + ((ascii_of_hex(toks_dv[t as int]) + "\n"@)
                    + name_lines(toks_dv, t + 1)) =~= (rep0 + piece@)
                    + name_lines(toks_dv, t + 1));
            }
            t = t + 1;
        }
        proof {
            assert(name_lines(toks_dv, toks_dv.len() as int)
                == Seq::<char>::empty());
            assert(rep@ + Seq::<char>::empty() =~= rep@);
            assert(rep@ == pre2 + name_lines(toks_dv, 0));
        }

        rep.append("=============================\n");
        rep
    }
}

/// The matrix walk and the byte-level read agree: reading `k` cells
/// backwards from byte `hi`'s cell of the analysis matrix concatenates to
/// exactly the lower-case rendering of the `k`-byte little-endian field
/// anchored at `hi`.  The string arithmetic of `pe_tools::read_hex` and the
/// locator's `le_val` therefore see every field the same way.
pub proof fn lemma_matrix_walk_reads_field(b: Seq<u8>, hi: int, k: nat)
    requires
        k <= hi + 1,
        0 <= hi < padded_len(b.len()),
    ensures
        crate::pe_tools::read_back(matrix_of(b), k, hi / 16, hi % 16)
            == hex_digits_lower(
            crate::locator::le_val(pad16(b), hi + 1 - k, k),
            2 * k,
        ),
    decreases k,
{
    let m = matrix_of(b);
    let p = pad16(b);
    let r = hi / 16;
    let c = hi % 16;
    if k == 0 {
        assert(crate::pe_tools::read_back(m, 0, r, c) == Seq::<char>::empty());
        assert(hex_digits_lower(crate::locator::le_val(p, hi + 1, 0), 0)
            =~= Seq::<char>::empty());
    } else {
        assert(0 <= c < 16 && 16 * r + c == hi) by (nonlinear_arith)
            requires hi >= 0, r == hi / 16, c == hi % 16;
        crate::locator::lemma_padded_len(b.len());
        assert(r < m.len()) by (nonlinear_arith)
            requires
                0 <= hi < padded_len(b.len()),
                padded_len(b.len()) % 16 == 0,
                r == hi / 16,
                m.len() == padded_len(b.len()) / 16,
        ;
        assert(m[r][c] == hex_digits_lower(p[16 * r + c] as nat, 2));
        let v = crate::locator::le_val(p, hi + 1 - k, k);
        crate::locator::lemma_le_val_msb(p, hi + 1 - k, k);
        let low = crate::locator::le_val(p, hi + 1 - k, (k - 1) as nat);
        crate::locator::lemma_le_val_bound(p, hi + 1 - k, (k - 1) as nat);
        crate::locator::lemma_pow256_pow16((k - 1) as nat);
        let q = crate::hexnum::pow16((2 * k - 2) as nat);
        assert(q == crate::locator::pow256((k - 1) as nat));
        assert(v == low + p[hi] * q);
        assert(v / q == p[hi] && v % q == low) by (nonlinear_arith)
            requires v == low + p[hi] * q, 0 <= low < q, q >= 1;
        crate::hexnum::lemma_hex_digits_lower_split(v, 2, (2 * k - 2) as nat);
        assert(hex_digits_lower(v, 2 * k) == hex_digits_lower(p[hi] as nat, 2)
            + hex_digits_lower(low, (2 * k - 2) as nat));
        if k == 1 {
            if c == 0 {
                assert(crate::pe_tools::read_back(m, 1, r, c) == m[r][c]
                    + crate::pe_tools::read_back(m, 0, r - 1, 15));
                assert(crate::pe_tools::read_back(m, 0, r - 1, 15)
                    == Seq::<char>::empty());
            } else {
                assert(crate::pe_tools::read_back(m, 1, r, c) == m[r][c]
                    + crate::pe_tools::read_back(m, 0, r, c - 1));
                assert(crate::pe_tools::read_back(m, 0, r, c - 1)
                    == Seq::<char>::empty());
            }
            assert(hex_digits_lower(low, 0) == Seq::<char>::empty());
            assert(m[r][c] + Seq::<char>::empty() =~= m[r][c]);
        } else {
            lemma_matrix_walk_reads_field(b, hi - 1, (k - 1) as nat);
            let pr = (hi - 1) / 16;
            let pc = (hi - 1) % 16;
            if c == 0 {
                assert(pr == r - 1 && pc == 15) by (nonlinear_arith)
                    requires hi == 16 * r, hi >= 1, pr == (hi - 1) / 16,
                        pc == (hi - 1) % 16;
                assert(crate::pe_tools::read_back(m, k, r, c) == m[r][c]
                    + crate::pe_tools::read_back(m, (k - 1) as nat, r - 1, 15));
            } else {
                assert(pr == r && pc == c - 1) by (nonlinear_arith)
                    requires hi == 16 * r + c, 0 < c < 16, pr == (hi - 1) / 16,
                        pc == (hi - 1) % 16;
                assert(crate::pe_tools::read_back(m, k, r, c) == m[r][c]
                    + crate::pe_tools::read_back(m, (k - 1) as nat, r, c - 1));
            }
        }
    }
}

/// Decoding inverts the token encoding: a byname token is stored as the
/// lower-case hex rendering of an extracted run of ASCII bytes, and the
/// report's decoder turns it back into exactly those characters.
pub proof fn lemma_report_decodes_tokens(bs: Seq<u8>)
    requires
        forall|i: int| 0 <= i < bs.len() ==> #[trigger] bs[i] < 0x80,
    ensures
        ascii_of_hex(hex_lower_of(bs)) == bs.map_values(|b: u8| b as char),
{
    crate::hexnum::lemma_hex_lower_of_index(bs);
    let t = hex_lower_of(bs);
    assert(t.len() / 2 == bs.len());
    assert forall|i: int| 0 <= i < bs.len() implies decoded_pair(
        t[2 * i],
        t[2 * i + 1],
    ) == bs[i] as char by {
        let hi = (bs[i] / 16) as nat;
        let lo = (bs[i] % 16) as nat;
        assert(t[2 * i] == crate::hexnum::hex_char_lower(hi));
        assert(t[2 * i + 1] == crate::hexnum::hex_char_lower(lo));
        assert(hi < 16 && lo < 16);
        assert(is_hex_digit(crate::hexnum::hex_char_lower(hi))
            && hex_digit_val(crate::hexnum::hex_char_lower(hi)) == hi);
        assert(is_hex_digit(crate::hexnum::hex_char_lower(lo))
            && hex_digit_val(crate::hexnum::hex_char_lower(lo)) == lo);
        assert(16 * hi + lo == bs[i]) by (nonlinear_arith)
            requires hi == (bs[i] / 16) as nat, lo == (bs[i] % 16) as nat;
    }
    assert(ascii_of_hex(t) =~= bs.map_values(|b: u8| b as char));
}

} // verus!
