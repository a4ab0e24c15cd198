use pe_study::pe_tools::{
    add_hex, add_hex_cycle, fuzzy_search, hex_compare1, hex_compare2, position1, position2,
    read_hex, sub_hex, vec_to_string,
};
use pe_study::PeError;

#[test]
fn add_hex_pads_to_eight_digits() {
    assert_eq!(add_hex("00001000", "00000050").unwrap(), "00001050");
    assert_eq!(add_hex("0", "0").unwrap(), "00000000");
    assert_eq!(add_hex("6", "a").unwrap(), "00000010");
}

#[test]
fn add_hex_renders_upper_case() {
    assert_eq!(add_hex("0000100a", "00000000").unwrap(), "0000100A");
    assert_eq!(add_hex_cycle("0000100a", "00000001").unwrap(), "0000100B");
}

#[test]
fn add_hex_overflow_is_reported() {
    assert_eq!(add_hex("FFFFFFFF", "00000001"), Err(PeError::ArithmeticOverflow));
    assert_eq!(add_hex("FFFFFFFF", "FFFFFFFF"), Err(PeError::ArithmeticOverflow));
}

#[test]
fn add_hex_rejects_bad_digits() {
    assert_eq!(add_hex("xyz", "00000001"), Err(PeError::InvalidAddress));
    assert_eq!(add_hex("", "1"), Err(PeError::InvalidAddress));
    assert_eq!(add_hex("123456789", "1"), Err(PeError::InvalidAddress));
}

#[test]
fn sub_hex_subtracts_and_pads() {
    assert_eq!(sub_hex("00001050", "00000050").unwrap(), "00001000");
    assert_eq!(sub_hex("00000001", "00000002"), Err(PeError::ArithmeticUnderflow));
    assert_eq!(sub_hex("0000000g", "00000002"), Err(PeError::InvalidAddress));
}

#[test]
fn add_then_sub_round_trips() {
    let a = "0000100A";
    let b = "00000051";
    let sum = add_hex(a, b).unwrap();
    assert_eq!(sum, "0000105B");
    assert_eq!(sub_hex(&sum, b).unwrap(), a);
}

#[test]
fn decompose_splits_row_and_column() {
    assert_eq!(position1("0000FA3c").unwrap(), 0xFA3);
    assert_eq!(position2("0000FA3c").unwrap(), 0xC);
    assert_eq!(position1("00001050").unwrap(), 0x105);
    assert_eq!(position2("00001050").unwrap(), 0);
    // row and column recombine into the address value
    let v = u64::from_str_radix("0000FA3c", 16).unwrap();
    assert_eq!(16 * position1("0000FA3c").unwrap() as u64 + position2("0000FA3c").unwrap() as u64, v);
}

#[test]
fn decompose_rejects_short_or_bad_addresses() {
    assert_eq!(position1("123"), Err(PeError::InvalidAddress));
    assert_eq!(position2("123456789"), Err(PeError::InvalidAddress));
    assert_eq!(position1("0000zz00"), Err(PeError::InvalidAddress));
}

#[test]
fn comparisons_are_numeric() {
    assert_eq!(hex_compare1("0A", "9").unwrap(), true);
    assert_eq!(hex_compare1("09", "A").unwrap(), false);
    assert_eq!(hex_compare2("21", "7e").unwrap(), true);
    assert_eq!(hex_compare2("7F", "7e").unwrap(), false);
    assert_eq!(hex_compare1("q", "9"), Err(PeError::InvalidAddress));
}

#[test]
fn vec_to_string_is_lower_hex() {
    assert_eq!(vec_to_string(&[0xDE, 0xAD, 0x01]), "dead01");
    assert_eq!(vec_to_string(&[]), "");
}

#[test]
fn fuzzy_search_is_case_insensitive_containment() {
    assert!(fuzzy_search("HelloWorld", "world"));
    assert!(fuzzy_search("abc", ""));
    assert!(!fuzzy_search("abc", "abcd"));
    assert!(fuzzy_search("43726561746546696C6541", "6546696c65"));
}

#[test]
fn read_hex_walks_backwards_with_row_wrap() {
    let row0: Vec<String> = (0x00u8..0x10u8).map(|b| format!("{:02x}", b)).collect();
    let row1: Vec<String> = (0x10u8..0x20u8).map(|b| format!("{:02x}", b)).collect();
    let matrix = vec![row0, row1];
    assert_eq!(read_hex(&matrix, 4, 1, 2).unwrap(), "1211100f");
    assert_eq!(read_hex(&matrix, 1, 0, 0).unwrap(), "00");
    assert_eq!(read_hex(&matrix, 2, 0, 15).unwrap(), "0f0e");
    assert_eq!(read_hex(&matrix, 0, 0, 0).unwrap(), "");
}

#[test]
fn read_hex_reports_walks_that_leave_the_matrix() {
    let row0: Vec<String> = (0x00u8..0x10u8).map(|b| format!("{:02x}", b)).collect();
    let matrix = vec![row0];
    // more cells than lie before the start position
    assert_eq!(read_hex(&matrix, 4, 0, 0), Err(PeError::SectionTableOutOfBounds));
    // a row out of range, and a column at 16
    assert_eq!(read_hex(&matrix, 1, 5, 0), Err(PeError::SectionTableOutOfBounds));
    assert_eq!(read_hex(&matrix, 1, 0, 16), Err(PeError::SectionTableOutOfBounds));
    // a matrix whose row does not hold 16 cells
    let short = vec![vec!["00".to_string(), "01".to_string()]];
    assert_eq!(read_hex(&short, 1, 0, 0), Err(PeError::SectionTableOutOfBounds));
}
