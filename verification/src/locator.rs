//! Structural locator: byte-level resolution of the PE header chain.
//!
//! The buffer is modelled as a matrix of 16-byte rows, conceptually padded
//! with zero bytes up to a full last row (`pad16`).  Multi-byte fields are
//! read little-endian, anchored at the *highest* byte of the field
//! (`le_val`), exactly as the matrix walk of `pe_tools::read_hex` reads them
//! backwards cell by cell.

use vstd::prelude::*;

use crate::error::PeError;

verus! {

/// Where the format stores the PE header's own file offset.
pub const HEADER_POINTER_OFFSET: u32 = 0x3C;

/// Displacement from the PE header to the section-count byte.
pub const SECTION_COUNT_DISP: u32 = 0x06;

/// Displacement from the PE header to the import-directory RVA field.
pub const IMPORT_DIRECTORY_DISP: u32 = 0x83;

/// Displacement from the PE header to the optional-header-size field.
pub const OPTIONAL_SIZE_DISP: u32 = 0x15;

/// Displacement from the PE header to the section table, before the
/// optional header's size is added.
pub const SECTION_TABLE_DISP: u32 = 0x18;

/// Displacement from a section header to its virtual-address field.
pub const SECTION_VA_DISP: u32 = 0x0F;

/// Displacement from the virtual-address field to the raw-file-offset
/// field of the same section header.
pub const SECTION_FILE_DISP: u32 = 0x08;

/// The stride between consecutive section headers.
pub const SECTION_STRIDE: u32 = 0x28;

/// Displacement from a resolved table to the field naming the next one
/// (import directory to IAT, IAT to the hint/name table).
pub const NEXT_TABLE_DISP: u32 = 0x03;

/// The smallest buffer that holds the header pointer's full matrix row.
pub const MIN_IMAGE_LEN: usize = 0x44;

/// An entry of the section table: where a section sits in memory and where
/// its raw data sits in the file.
#[derive(Clone, Copy, Debug, PartialEq, Eq, Structural)]
pub struct SectionEntry {
    pub virtual_address: u32,
    pub file_offset: u32,
}

/// The buffer length rounded up to a whole number of 16-byte rows.
pub open spec fn padded_len(n: nat) -> nat {
    ((n + 15) / 16) * 16
}

/// The buffer padded with zero bytes up to a whole number of rows.
pub open spec fn pad16(b: Seq<u8>) -> Seq<u8> {
    Seq::new(padded_len(b.len()), |i: int| if i < b.len() { b[i] } else { 0u8 })
}

pub proof fn lemma_padded_len(n: nat)
    ensures
        n <= padded_len(n) < n + 16,
        padded_len(n) % 16 == 0,
{
    assert(n <= ((n + 15) / 16) * 16 < n + 16 && (((n + 15) / 16) * 16) % 16
        == 0) by (nonlinear_arith);
}

/// 256 to the power `n`.
pub open spec fn pow256(n: nat) -> nat
    decreases n,
{
    if n == 0 {
        1
    } else {
        256 * pow256((n - 1) as nat)
    }
}

pub proof fn lemma_pow256_values()
    ensures
        pow256(1) == 0x100,
        pow256(2) == 0x1_0000,
        pow256(3) == 0x100_0000,
        pow256(4) == 0x1_0000_0000,
{
    reveal_with_fuel(pow256, 5);
}

/// The value of the `k`-byte little-endian field starting at `lo`.
pub open spec fn le_val(p: Seq<u8>, lo: int, k: nat) -> nat
    decreases k,
{
    if k == 0 {
        0
    } else {
        (p[lo] + 256 * le_val(p, lo + 1, (k - 1) as nat)) as nat
    }
}

/// A little-endian field is bounded by 256 to its width.
pub proof fn lemma_le_val_bound(p: Seq<u8>, lo: int, k: nat)
    requires
        0 <= lo,
        lo + k <= p.len(),
    ensures
        le_val(p, lo, k) < pow256(k),
    decreases k,
{
    if k > 0 {
        lemma_le_val_bound(p, lo + 1, (k - 1) as nat);
    }
}

/// Peeling the most significant byte of a little-endian field.
pub proof fn lemma_le_val_msb(p: Seq<u8>, lo: int, k: nat)
    requires
        k >= 1,
    ensures
        le_val(p, lo, k) == le_val(p, lo, (k - 1) as nat) + p[lo + k - 1]
            * pow256((k - 1) as nat),
    decreases k,
{
    if k == 1 {
        assert(le_val(p, lo, 1) == p[lo] + 256 * le_val(p, lo + 1, 0));
        assert(le_val(p, lo + 1, 0) == 0);
        assert(le_val(p, lo, 0) == 0);
        assert(pow256(0) == 1);
        assert(p[lo + 1 - 1] * pow256(0) == p[lo]) by (nonlinear_arith)
            requires pow256(0) == 1;
    } else {
        lemma_le_val_msb(p, lo + 1, (k - 1) as nat);
        let x = le_val(p, lo + 1, (k - 2) as nat) as int;
        let c = p[lo + k - 1] as int;
        let q = pow256((k - 2) as nat) as int;
        assert(le_val(p, lo, k) == p[lo] + 256 * le_val(p, lo + 1, (k - 1) as nat));
        assert(le_val(p, lo, (k - 1) as nat) == p[lo] + 256 * le_val(
            p, lo + 1, (k - 2) as nat));
        assert(le_val(p, lo + 1, (k - 1) as nat) == x + c * q);
        assert(pow256((k - 1) as nat) == 256 * pow256((k - 2) as nat));
        assert(256 * (x + c * q) == 256 * x + c * (256 * q))
            by (nonlinear_arith);
    }
}

/// 256 to a power is 16 to twice that power.
pub proof fn lemma_pow256_pow16(n: nat)
    ensures
        pow256(n) == crate::hexnum::pow16(2 * n),
    decreases n,
{
    if n == 0 {
        assert(crate::hexnum::pow16(0) == 1);
    } else {
        lemma_pow256_pow16((n - 1) as nat);
        assert(crate::hexnum::pow16(2 * n) == 16 * crate::hexnum::pow16(
            (2 * n - 1) as nat));
        assert(crate::hexnum::pow16((2 * n - 1) as nat) == 16
            * crate::hexnum::pow16((2 * n - 2) as nat));
        assert(2 * n - 2 == 2 * ((n - 1) as nat));
    }
}

/// The byte of the conceptually padded buffer at index `i`: the buffer's own
/// byte inside it, zero in the padding of the last row.
pub(crate) fn padded_get(b: &Vec<u8>, i: usize) -> (r: u8)
    requires
        (i as nat) < padded_len(b@.len()),
    ensures
        r == pad16(b@)[i as int],
{
    if i < b.len() {
        b[i]
    } else {
        0
    }
}

/// The padded length, computed executably.
pub(crate) fn padded_len_exec(b: &Vec<u8>) -> (r: usize)
    requires
        b@.len() + 16 <= usize::MAX,
    ensures
        r as nat == padded_len(b@.len()),
        r as nat == pad16(b@).len(),
{
    proof {
        lemma_padded_len(b@.len());
    }
    let n = b.len();
    ((n + 15) / 16) * 16
}

/// Reads the `k`-byte little-endian field whose most significant byte sits
/// at index `hi` of the padded buffer.
pub(crate) fn read_field(b: &Vec<u8>, hi: usize, k: usize) -> (r: u32)
    requires
        1 <= k <= 4,
        k - 1 <= hi,
        (hi as nat) < padded_len(b@.len()),
    ensures
        r as nat == le_val(pad16(b@), hi + 1 - k, k as nat),
{
    let ghost p = pad16(b@);
    let mut acc: u32 = 0;
    let mut j: usize = 0;
    while j < k
        invariant
            0 <= j <= k,
            1 <= k <= 4,
            k - 1 <= hi,
            (hi as nat) < padded_len(b@.len()),
            p == pad16(b@),
            acc as nat == le_val(p, hi + 1 - j, j as nat),
            (acc as nat) < pow256(j as nat),
        decreases k - j,
    {
        let byte = padded_get(b, hi - j);
        proof {
            lemma_pow256_values();
            lemma_pow256_pos(j as nat);
            if j + 1 < 4 {
                lemma_pow256_increases((j + 1) as nat, 3);
            } else {
                lemma_pow256_increases((j + 1) as nat, 4);
            }
            assert(le_val(p, hi - j, (j + 1) as nat) == p[hi - j] + 256
                * le_val(p, hi + 1 - j, j as nat));
        }
        acc = acc * 256 + (byte as u32);
        j = j + 1;
    }
    acc
}

/// Powers of 256 are positive.
pub proof fn lemma_pow256_pos(n: nat)
    ensures
        pow256(n) >= 1,
    decreases n,
{
    if n > 0 {
        lemma_pow256_pos((n - 1) as nat);
    }
}

pub proof fn lemma_pow256_increases(m: nat, n: nat)
    requires
        m <= n,
    ensures
        pow256(m) <= pow256(n),
    decreases n,
{
    if n > 0 && m < n {
        lemma_pow256_increases(m, (n - 1) as nat);
        lemma_pow256_pos((n - 1) as nat);
    }
}

/// The index of the first section whose virtual address lies strictly above
/// `rva`, scanning from `i`; the length when there is none.
pub open spec fn scan_stop(sections: Seq<SectionEntry>, rva: u32, i: nat) -> nat
    decreases sections.len() - i,
{
    if i >= sections.len() {
        sections.len()
    } else if rva < sections[i as int].virtual_address {
        i
    } else {
        scan_stop(sections, rva, i + 1)
    }
}

/// What RVA-to-file-offset translation returns.
///
/// The scan advances while `rva` is at or above the section's virtual
/// address; the containing section is the one before the stop, so an RVA at
/// or above every virtual address falls to the last section.  An RVA below
/// the first section's virtual address (or an empty table) leaves the RVA
/// unresolvable; the translated offset must stay within 32 bits.
pub open spec fn translate_spec(sections: Seq<SectionEntry>, rva: u32) -> Result<
    u32,
    PeError,
> {
    let stop = scan_stop(sections, rva, 0);
    if stop == 0 {
        Err(PeError::UnresolvableRva)
    } else {
        let e = sections[stop - 1];
        if rva as nat - e.virtual_address as nat + e.file_offset as nat > 0xFFFF_FFFF {
            Err(PeError::ArithmeticOverflow)
        } else {
            Ok((rva - e.virtual_address + e.file_offset) as u32)
        }
    }
}

/// The scan never stops before a section whose virtual address is at or
/// below `rva`.
proof fn lemma_scan_stop_ge(sections: Seq<SectionEntry>, rva: u32, i: nat)
    requires
        i <= sections.len(),
    ensures
        i <= scan_stop(sections, rva, i) <= sections.len(),
        scan_stop(sections, rva, i) < sections.len() ==> rva < sections[
            scan_stop(sections, rva, i) as int
        ].virtual_address,
        forall|j: int|
            i <= j < scan_stop(sections, rva, i) ==> sections[j].virtual_address
                <= rva,
    decreases sections.len() - i,
{
    if i < sections.len() && rva >= sections[i as int].virtual_address {
        lemma_scan_stop_ge(sections, rva, i + 1);
    }
}

/// Translates a relative virtual address to a file offset through the
/// section table, as the specification `translate_spec` describes.
pub fn rva_to_offset(sections: &Vec<SectionEntry>, rva: u32) -> (r: Result<
    u32,
    PeError,
>)
    ensures
        r == translate_spec(sections@, rva),
{
    let n = sections.len();
    let mut i: usize = 0;
    while i < n && rva >= sections[i].virtual_address
        invariant
            0 <= i <= n,
            n == sections@.len(),
            scan_stop(sections@, rva, 0) == scan_stop(sections@, rva, i as nat),
        decreases n - i,
    {
        i = i + 1;
    }
    proof {
        assert(scan_stop(sections@, rva, 0) == i as nat);
    }
    if i == 0 {
        return Err(PeError::UnresolvableRva);
    }
    let e = sections[i - 1];
    proof {
        lemma_scan_stop_ge(sections@, rva, 0);
        assert(e.virtual_address <= rva);
    }
    let delta: u32 = rva - e.virtual_address;
    let total: u64 = (delta as u64) + (e.file_offset as u64);
    if total > 0xFFFF_FFFF {
        return Err(PeError::ArithmeticOverflow);
    }
    Ok(total as u32)
}

/// Everything the structural locator resolves from one buffer, as ghost
/// values: header fields, the section table, the chased offsets, the byname
/// region and its tokens.
pub struct LayoutModel {
    pub pe_head: u32,
    pub section_count: u32,
    pub import_rva: u32,
    pub opt_size: u32,
    pub first_section: u32,
    pub sections: Seq<SectionEntry>,
    pub import_file: u32,
    pub iat_rva: u32,
    pub iat_file: u32,
    pub byname_rva: u32,
    pub byname_file: u32,
    pub region: Seq<u8>,
    pub tokens: Seq<Seq<u8>>,
}

/// A 32-bit offset addition; it fails rather than wrap.
pub open spec fn add_off(x: u32, d: u32) -> Result<u32, PeError> {
    if x + d > 0xFFFF_FFFF {
        Err(PeError::ArithmeticOverflow)
    } else {
        Ok((x + d) as u32)
    }
}

/// The `k`-byte field anchored at `hi`, or `SectionTableOutOfBounds` when
/// the anchor or any byte of the field lies outside the padded matrix.
pub open spec fn read_at(p: Seq<u8>, hi: u32, k: nat) -> Result<u32, PeError> {
    if (hi as nat) < p.len() && k <= hi as nat + 1 {
        Ok(le_val(p, hi - (k - 1), k) as u32)
    } else {
        Err(PeError::SectionTableOutOfBounds)
    }
}

/// The fixed header fields, resolved in the order the reader visits them:
/// the PE header offset (stored at `0x3C`), the section count (one byte at
/// `+0x06`), the import-directory RVA (four bytes at `+0x83`), the optional
/// header size (two bytes at `+0x15`), and the first section header at
/// `+0x18 + optional header size`.
pub open spec fn header_of(p: Seq<u8>) -> Result<(u32, u32, u32, u32, u32), PeError> {
    let pe = le_val(p, HEADER_POINTER_OFFSET as int, 4) as u32;
    match add_off(pe, SECTION_COUNT_DISP) {
        Err(e) => Err(e),
        Ok(cpos) => match read_at(p, cpos, 1) {
            Err(e) => Err(e),
            Ok(cnt) => match add_off(pe, IMPORT_DIRECTORY_DISP) {
                Err(e) => Err(e),
                Ok(ipos) => match read_at(p, ipos, 4) {
                    Err(e) => Err(e),
                    Ok(import_rva) => match add_off(pe, OPTIONAL_SIZE_DISP) {
                        Err(e) => Err(e),
                        Ok(opos) => match read_at(p, opos, 2) {
                            Err(e) => Err(e),
                            Ok(opt_size) => match add_off(pe, SECTION_TABLE_DISP) {
                                Err(e) => Err(e),
                                Ok(hdr) => match add_off(opt_size, hdr) {
                                    Err(e) => Err(e),
                                    Ok(first) => Ok(
                                        (pe, cnt, import_rva, opt_size, first),
                                    ),
                                },
                            },
                        },
                    },
                },
            },
        },
    }
}

/// The section entries from `i` up to `count`, each read as a four-byte
/// virtual address anchored at `anchor` and a four-byte file offset anchored
/// eight bytes further, with the anchor advancing by the section-header
/// stride `0x28`.
pub open spec fn sections_from(p: Seq<u8>, anchor: u32, i: nat, count: nat) -> Result<
    Seq<SectionEntry>,
    PeError,
>
    decreases count - i,
{
    if i >= count {
        Ok(Seq::empty())
    } else {
        match read_at(p, anchor, 4) {
            Err(e) => Err(e),
            Ok(va) => match add_off(anchor, SECTION_FILE_DISP) {
                Err(e) => Err(e),
                Ok(fpos) => match read_at(p, fpos, 4) {
                    Err(e) => Err(e),
                    Ok(fo) => {
                        let entry = SectionEntry {
                            virtual_address: va,
                            file_offset: fo,
                        };
                        if i + 1 == count {
                            Ok(seq![entry])
                        } else {
                            match add_off(anchor, SECTION_STRIDE) {
                                Err(e) => Err(e),
                                Ok(next) => match sections_from(
                                    p,
                                    next,
                                    i + 1,
                                    count,
                                ) {
                                    Err(e) => Err(e),
                                    Ok(rest) => Ok(seq![entry] + rest),
                                },
                            }
                        }
                    },
                },
            },
        }
    }
}

/// The section table of the layout: empty when the count byte is zero, else
/// the `count` entries starting at `first + 0x0F`.
pub open spec fn sections_of(p: Seq<u8>, first: u32, count: u32) -> Result<
    Seq<SectionEntry>,
    PeError,
> {
    if count == 0 {
        Ok(Seq::empty())
    } else {
        match add_off(first, SECTION_VA_DISP) {
            Err(e) => Err(e),
            Ok(anchor) => sections_from(p, anchor, 0, count as nat),
        }
    }
}

/// The chased offsets: the import directory's file offset, then (four bytes
/// at `+0x03` each time, translated through the section table) the IAT and
/// the import-by-name table.
pub open spec fn chase_of(p: Seq<u8>, sections: Seq<SectionEntry>, import_rva: u32) -> Result<
    (u32, u32, u32, u32, u32),
    PeError,
> {
    match translate_spec(sections, import_rva) {
        Err(e) => Err(e),
        Ok(import_file) => match add_off(import_file, NEXT_TABLE_DISP) {
            Err(e) => Err(e),
            Ok(ipos) => match read_at(p, ipos, 4) {
                Err(e) => Err(e),
                Ok(iat_rva) => match translate_spec(sections, iat_rva) {
                    Err(e) => Err(e),
                    Ok(iat_file) => match add_off(iat_file, NEXT_TABLE_DISP) {
                        Err(e) => Err(e),
                        Ok(bpos) => match read_at(p, bpos, 4) {
                            Err(e) => Err(e),
                            Ok(byname_rva) => match translate_spec(
                                sections,
                                byname_rva,
                            ) {
                                Err(e) => Err(e),
                                Ok(byname_file) => Ok(
                                    (
                                        import_file,
                                        iat_rva,
                                        iat_file,
                                        byname_rva,
                                        byname_file,
                                    ),
                                ),
                            },
                        },
                    },
                },
            },
        },
    }
}

/// The full structural resolution of a buffer.  A buffer shorter than
/// `0x44` bytes cannot hold the header pointer's row and is rejected as
/// truncated; byname scanning starts at the first byte of the row holding
/// the byname file offset and must find its terminator before the buffer
/// ends — the conceptual zero padding of the last row never completes it.
pub open spec fn layout_of(b: Seq<u8>) -> Result<LayoutModel, PeError> {
    if b.len() < MIN_IMAGE_LEN {
        Err(PeError::TruncatedInput)
    } else {
        let p = pad16(b);
        match header_of(p) {
            Err(e) => Err(e),
            Ok((pe, cnt, import_rva, opt_size, first)) => match sections_of(
                p,
                first,
                cnt,
            ) {
                Err(e) => Err(e),
                Ok(sections) => match chase_of(p, sections, import_rva) {
                    Err(e) => Err(e),
                    Ok((import_file, iat_rva, iat_file, byname_rva, byname_file)) => match
                        crate::byname::byname_region(
                        b,
                        ((byname_file / 16) * 16) as nat,
                    ) {
                        Err(e) => Err(e),
                        Ok(region) => Ok(
                            LayoutModel {
                                pe_head: pe,
                                section_count: cnt,
                                import_rva,
                                opt_size,
                                first_section: first,
                                sections,
                                import_file,
                                iat_rva,
                                iat_file,
                                byname_rva,
                                byname_file,
                                region,
                                tokens: crate::byname::tokens_of(region),
                            },
                        ),
                    },
                },
            },
        }
    }
}

/// The resolved layout, as executable values.
#[derive(Debug)]
pub(crate) struct Layout {
    pub pe_head: u32,
    pub section_count: u32,
    pub import_rva: u32,
    pub opt_size: u32,
    pub sections: Vec<SectionEntry>,
    pub import_file: u32,
    pub iat_rva: u32,
    pub iat_file: u32,
    pub byname_rva: u32,
    pub byname_file: u32,
    pub tokens: Vec<Vec<u8>>,
}

/// The executable layout carries exactly the model's values.
pub(crate) open spec fn layout_matches(l: Layout, m: LayoutModel) -> bool {
    &&& l.pe_head == m.pe_head
    &&& l.section_count == m.section_count
    &&& l.import_rva == m.import_rva
    &&& l.opt_size == m.opt_size
    &&& l.sections@ == m.sections
    &&& l.import_file == m.import_file
    &&& l.iat_rva == m.iat_rva
    &&& l.iat_file == m.iat_file
    &&& l.byname_rva == m.byname_rva
    &&& l.byname_file == m.byname_file
    &&& l.tokens.deep_view() == m.tokens
}

/// A 32-bit offset addition that fails rather than wrap.
pub(crate) fn checked_add(x: u32, d: u32) -> (r: Result<u32, PeError>)
    ensures
        r == add_off(x, d),
{
    let s: u64 = (x as u64) + (d as u64);
    if s > 0xFFFF_FFFF {
        Err(PeError::ArithmeticOverflow)
    } else {
        Ok(s as u32)
    }
}

/// Reads the `k`-byte field anchored at `pos`, checking the bounds that
/// `read_at` demands.
pub(crate) fn checked_read(b: &Vec<u8>, pos: u32, k: usize) -> (r: Result<u32, PeError>)
    requires
        1 <= k <= 4,
        b@.len() + 16 <= usize::MAX,
    ensures
        r == read_at(pad16(b@), pos, k as nat),
{
    let plen = padded_len_exec(b);
    let ghost p = pad16(b@);
    if (pos as usize) < plen && k <= (pos as usize) + 1 {
        let v = read_field(b, pos as usize, k);
        proof {
            lemma_le_val_bound(p, pos - (k - 1), k as nat);
            lemma_pow256_values();
            lemma_pow256_increases(k as nat, 4);
        }
        Ok(v)
    } else {
        Err(PeError::SectionTableOutOfBounds)
    }
}

/// Collects the whole section table, walking it exactly as `sections_from`
/// describes.
pub(crate) fn collect_sections(b: &Vec<u8>, anchor0: u32, count: u32) -> (r: Result<
    Vec<SectionEntry>,
    PeError,
>)
    requires
        count >= 1,
        b@.len() + 16 <= usize::MAX,
    ensures
        match sections_from(pad16(b@), anchor0, 0, count as nat) {
            Err(e) => r is Err && r == Err::<Vec<SectionEntry>, PeError>(e),
            Ok(s) => r is Ok && r.unwrap()@ == s,
        },
{
    let ghost p = pad16(b@);
    let mut out: Vec<SectionEntry> = Vec::new();
    let mut anchor: u32 = anchor0;
    let mut i: u32 = 0;
    while i < count
        invariant
            0 <= i <= count,
            b@.len() + 16 <= usize::MAX,
            p == pad16(b@),
            out@.len() == i,
            match sections_from(p, anchor0, 0, count as nat) {
                Err(e) => sections_from(p, anchor, i as nat, count as nat)
                    == Err::<Seq<SectionEntry>, PeError>(e),
                Ok(s) => match sections_from(p, anchor, i as nat, count as nat) {
                    Err(_) => false,
                    Ok(rest) => s == out@ + rest,
                },
            },
        decreases count - i,
    {
        let va = match checked_read(b, anchor, 4) {
            Ok(v) => v,
            Err(e) => {
                return Err(e);
            },
        };
        let fpos = match checked_add(anchor, SECTION_FILE_DISP) {
            Ok(v) => v,
            Err(e) => {
                return Err(e);
            },
        };
        let fo = match checked_read(b, fpos, 4) {
            Ok(v) => v,
            Err(e) => {
                return Err(e);
            },
        };
        let entry = SectionEntry { virtual_address: va, file_offset: fo };
        let ghost old_out = out@;
        out.push(entry);
        if i + 1 == count {
            proof {
                assert(sections_from(p, anchor, i as nat, count as nat)
                    == Ok::<Seq<SectionEntry>, PeError>(seq![entry]));
                assert(old_out + seq![entry] =~= out@);
                assert(sections_from(p, anchor, (i + 1) as nat, count as nat)
                    == Ok::<Seq<SectionEntry>, PeError>(Seq::empty()));
                assert(out@ + Seq::<SectionEntry>::empty() =~= out@);
            }
            i = i + 1;
        } else {
            let next = match checked_add(anchor, SECTION_STRIDE) {
                Ok(v) => v,
                Err(e) => {
                    return Err(e);
                },
            };
            proof {
                match sections_from(p, next, (i + 1) as nat, count as nat) {
                    Err(_) => {},
                    Ok(rest) => {
                        assert(old_out + (seq![entry] + rest) =~= out@ + rest);
                    },
                }
            }
            anchor = next;
            i = i + 1;
        }
    }
    proof {
        assert(sections_from(p, anchor, count as nat, count as nat)
            == Ok::<Seq<SectionEntry>, PeError>(Seq::empty()));
        assert(out@ + Seq::<SectionEntry>::empty() =~= out@);
    }
    Ok(out)
}

/// Resolves the whole layout of a buffer, as `layout_of` describes.
pub(crate) fn read_layout(b: &Vec<u8>) -> (r: Result<Layout, PeError>)
    requires
        b@.len() + 16 <= usize::MAX,
    ensures
        match layout_of(b@) {
            Err(e) => r is Err && r.unwrap_err() == e,
            Ok(m) => r is Ok && layout_matches(r.unwrap(), m),
        },
{
    if b.len() < MIN_IMAGE_LEN {
        return Err(PeError::TruncatedInput);
    }
    let ghost p = pad16(b@);
    proof {
        lemma_padded_len(b@.len());
    }
    let pe = read_field(b, (HEADER_POINTER_OFFSET as usize) + 3, 4);
    proof {
        lemma_le_val_bound(p, HEADER_POINTER_OFFSET as int, 4);
        lemma_pow256_values();
    }
    let cpos = match checked_add(pe, SECTION_COUNT_DISP) {
        Ok(v) => v,
        Err(e) => {
            return Err(e);
        },
    };
    let cnt = match checked_read(b, cpos, 1) {
        Ok(v) => v,
        Err(e) => {
            return Err(e);
        },
    };
    let ipos = match checked_add(pe, IMPORT_DIRECTORY_DISP) {
        Ok(v) => v,
        Err(e) => {
            return Err(e);
        },
    };
    let import_rva = match checked_read(b, ipos, 4) {
        Ok(v) => v,
        Err(e) => {
            return Err(e);
        },
    };
    let opos = match checked_add(pe, OPTIONAL_SIZE_DISP) {
        Ok(v) => v,
        Err(e) => {
            return Err(e);
        },
    };
    let opt_size = match checked_read(b, opos, 2) {
        Ok(v) => v,
        Err(e) => {
            return Err(e);
        },
    };
    let hdr = match checked_add(pe, SECTION_TABLE_DISP) {
        Ok(v) => v,
        Err(e) => {
            return Err(e);
        },
    };
    let first = match checked_add(opt_size, hdr) {
        Ok(v) => v,
        Err(e) => {
            return Err(e);
        },
    };
    let sections: Vec<SectionEntry>;
    if cnt == 0 {
        sections = Vec::new();
        proof {
            assert(sections_of(p, first, cnt) == Ok::<Seq<SectionEntry>, PeError>(
                Seq::empty()));
        }
    } else {
        let anchor0 = match checked_add(first, SECTION_VA_DISP) {
            Ok(v) => v,
            Err(e) => {
                return Err(e);
            },
        };
        sections = match collect_sections(b, anchor0, cnt) {
            Ok(v) => v,
            Err(e) => {
                return Err(e);
            },
        };
    }
    let import_file = match rva_to_offset(&sections, import_rva) {
        Ok(v) => v,
        Err(e) => {
            return Err(e);
        },
    };
    let iatpos = match checked_add(import_file, NEXT_TABLE_DISP) {
        Ok(v) => v,
        Err(e) => {
            return Err(e);
        },
    };
    let iat_rva = match checked_read(b, iatpos, 4) {
        Ok(v) => v,
        Err(e) => {
            return Err(e);
        },
    };
    let iat_file = match rva_to_offset(&sections, iat_rva) {
        Ok(v) => v,
        Err(e) => {
            return Err(e);
        },
    };
    let bpos = match checked_add(iat_file, NEXT_TABLE_DISP) {
        Ok(v) => v,
        Err(e) => {
            return Err(e);
        },
    };
    let byname_rva = match checked_read(b, bpos, 4) {
        Ok(v) => v,
        Err(e) => {
            return Err(e);
        },
    };
    let byname_file = match rva_to_offset(&sections, byname_rva) {
        Ok(v) => v,
        Err(e) => {
            return Err(e);
        },
    };
    let start: u32 = (byname_file / 16) * 16;
    let e = match crate::byname::find_terminator(b, start as usize) {
        Some(v) => v,
        None => {
            return Err(PeError::MalformedBynameTable);
        },
    };
    proof {
        lemma_find_term_ge(b@, start as nat);
    }
    let region = crate::byname::copy_region(b, start as usize, e);
    let tokens = crate::byname::tokenize(&region);
    Ok(Layout {
        pe_head: pe,
        section_count: cnt,
        import_rva,
        opt_size,
        sections,
        import_file,
        iat_rva,
        iat_file,
        byname_rva,
        byname_file,
        tokens,
    })
}

/// A found terminator lies at or after the scan start and wholly within
/// the scanned sequence.
pub proof fn lemma_find_term_ge(p: Seq<u8>, i: nat)
    ensures
        match crate::byname::find_term(p, i) {
            Option::None => true,
            Option::Some(e) => i <= e && e + 4 <= p.len(),
        },
    decreases p.len() - i,
{
    if i + 4 <= p.len() {
        if !(p[i as int] == 0 && p[i as int + 1] == 0 && p[i as int + 2] == 0
            && p[i as int + 3] == 0) {
            lemma_find_term_ge(p, i + 1);
        }
    }
}

} // verus!
