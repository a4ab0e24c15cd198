use pe_study::locator::{rva_to_offset, SectionEntry};
use pe_study::PeError;

fn two_sections() -> Vec<SectionEntry> {
    vec![
        SectionEntry { virtual_address: 0x1000, file_offset: 0x400 },
        SectionEntry { virtual_address: 0x2000, file_offset: 0x1400 },
    ]
}

#[test]
fn rva_in_first_section_resolves() {
    assert_eq!(rva_to_offset(&two_sections(), 0x1050), Ok(0x450));
}

#[test]
fn rva_in_last_section_resolves() {
    assert_eq!(rva_to_offset(&two_sections(), 0x2010), Ok(0x1410));
}

#[test]
fn rva_at_section_start_resolves_to_its_file_offset() {
    assert_eq!(rva_to_offset(&two_sections(), 0x1000), Ok(0x400));
    assert_eq!(rva_to_offset(&two_sections(), 0x2000), Ok(0x1400));
}

#[test]
fn rva_below_first_section_is_unresolvable() {
    assert_eq!(rva_to_offset(&two_sections(), 0x10), Err(PeError::UnresolvableRva));
    assert_eq!(rva_to_offset(&Vec::new(), 0x1000), Err(PeError::UnresolvableRva));
}

#[test]
fn translated_offset_must_fit_32_bits() {
    let sections = vec![SectionEntry { virtual_address: 0x10, file_offset: 0xFFFF_FFF0 }];
    assert_eq!(rva_to_offset(&sections, 0x30), Err(PeError::ArithmeticOverflow));
}
