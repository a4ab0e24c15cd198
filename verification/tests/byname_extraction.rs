use pe_study::byname::extract_byname;
use pe_study::PeError;

#[test]
fn create_file_a_is_extracted() {
    let mut buf: Vec<u8> = b"CreateFileA".to_vec();
    buf.extend_from_slice(&[0, 0, 0, 0]);
    let tokens = extract_byname(&buf, 0).unwrap();
    assert_eq!(tokens, vec!["43726561746546696c6541".to_string()]);
}

#[test]
fn extraction_starts_at_the_offset_row() {
    // the offset's column is ignored: scanning starts at the row's first byte
    let mut buf: Vec<u8> = vec![0x41; 16];
    buf.extend_from_slice(b"GetProcAddress");
    buf.extend_from_slice(&[0, 0, 0, 0, 0, 0]);
    let tokens = extract_byname(&buf, 0x17).unwrap();
    assert_eq!(tokens, vec!["47657450726f6341646472657373".to_string()]);
}

#[test]
fn single_byte_runs_are_dropped() {
    // one printable byte between zeros is hint residue, not a name
    let buf: Vec<u8> = vec![0x41, 0x00, 0x42, 0x43, 0x00, 0x00, 0x00, 0x00];
    let tokens = extract_byname(&buf, 0).unwrap();
    assert_eq!(tokens, vec!["4243".to_string()]);
}

#[test]
fn names_split_at_non_printable_bytes() {
    let buf: Vec<u8> = vec![
        0x41, 0x42, 0x00, 0x43, 0x44, 0x45, 0x1F, 0x46, 0x47, 0x00, 0x00, 0x00, 0x00,
    ];
    let tokens = extract_byname(&buf, 0).unwrap();
    assert_eq!(
        tokens,
        vec!["4142".to_string(), "434445".to_string(), "4647".to_string()]
    );
}

#[test]
fn missing_terminator_is_malformed() {
    let buf: Vec<u8> = vec![0x41; 16];
    assert_eq!(extract_byname(&buf, 0), Err(PeError::MalformedBynameTable));
}

#[test]
fn terminator_at_start_yields_no_tokens() {
    let buf: Vec<u8> = vec![0, 0, 0, 0, 0x41, 0x42];
    let tokens = extract_byname(&buf, 0).unwrap();
    assert!(tokens.is_empty());
}

#[test]
fn padding_zeros_never_complete_the_terminator() {
    // two real zeros at the end of the buffer do not join the conceptual
    // padding zeros of the short last row: the terminator must lie wholly
    // within the buffer
    let mut buf: Vec<u8> = b"LoadLibraryA".to_vec();
    buf.extend_from_slice(&[0, 0]);
    assert_eq!(extract_byname(&buf, 0), Err(PeError::MalformedBynameTable));

    // with all four zeros present, the same name is extracted
    buf.extend_from_slice(&[0, 0]);
    let tokens = extract_byname(&buf, 0).unwrap();
    assert_eq!(tokens, vec!["4c6f61644c69627261727941".to_string()]);
}
