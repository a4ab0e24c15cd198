use pe_study::matching::KnowledgeEntry;
use pe_study::pe_read::{read_exe_file, PeStudy};
use pe_study::pe_service::analysis;
use pe_study::pe_tools::{read_hex, vec_to_string};
use pe_study::PeError;

/// A minimal synthetic image: a header pointer at 0x3C, two sections, and
/// an import chain leading to a byname table holding one name.
fn synthetic_image() -> Vec<u8> {
    let mut buf: Vec<u8> = vec![0; 0x600];
    // header pointer: the PE header sits at 0x40
    buf[0x3C] = 0x40;
    // section count (one byte at header + 0x06)
    buf[0x46] = 0x02;
    // optional header size (two bytes anchored at header + 0x15)
    buf[0x54] = 0x80;
    // import directory RVA (four bytes anchored at header + 0x83)
    buf[0xC0] = 0x50;
    buf[0xC1] = 0x10;
    // first section header at 0x40 + 0x18 + 0x80 = 0xD8:
    // virtual address field anchored at 0xD8 + 0x0F
    buf[0xE5] = 0x10; // 0x1000
    buf[0xED] = 0x04; // file offset 0x400
    // second section header, one 0x28 stride further
    buf[0x10D] = 0x20; // 0x2000
    buf[0x115] = 0x14; // file offset 0x1400
    // IAT RVA field at import file offset 0x450 + 0x03
    buf[0x451] = 0x11; // 0x1100 -> file offset 0x500
    // byname RVA field at IAT file offset 0x500 + 0x03
    buf[0x500] = 0x50;
    buf[0x501] = 0x11; // 0x1150 -> file offset 0x550
    // the byname table itself
    buf[0x550..0x55B].copy_from_slice(b"CreateFileA");
    buf
}

#[test]
fn synthetic_image_resolves_fully() {
    let buf = synthetic_image();
    let study = read_exe_file(vec_to_string(&buf), "a.exe".to_string(), "1.5 KB".to_string())
        .unwrap();
    assert_eq!(study.pe_head, "00000040");
    assert_eq!(study.subsection_size, "02");
    assert_eq!(study.optional_head_size, "0080");
    assert_eq!(
        study.subsection_information,
        vec![
            vec!["00001000".to_string(), "00000400".to_string()],
            vec!["00002000".to_string(), "00001400".to_string()],
        ]
    );
    assert_eq!(study.import_real, "00001050");
    assert_eq!(study.iat_shifting, "00000450");
    assert_eq!(study.iat_real, "00000500");
    assert_eq!(study.byname_shifting, "00001150");
    assert_eq!(study.byname_real, "00000550");
    assert_eq!(study.byname_information, vec!["43726561746546696c6541".to_string()]);
    assert_eq!(study.field_name, "a.exe");
    assert_eq!(study.field_size, "1.5 KB");
    // the matrix mirrors the buffer, 16 lower-case cells per row
    assert_eq!(study.pe_study.len(), 0x60);
    assert_eq!(study.pe_study[0].len(), 16);
    assert_eq!(study.pe_study[3][12], "40");
    assert_eq!(study.pe_study[0x55][0], "43");
}

#[test]
fn truncated_input_is_rejected_without_panicking() {
    let buf: Vec<u8> = vec![0x4D; 0x43];
    assert!(matches!(
        read_exe_file(vec_to_string(&buf), String::new(), String::new()),
        Err(PeError::TruncatedInput)
    ));
    assert!(matches!(
        read_exe_file(String::new(), String::new(), String::new()),
        Err(PeError::TruncatedInput)
    ));
}

#[test]
fn non_hexadecimal_dumps_are_rejected() {
    assert!(matches!(
        read_exe_file("zz".repeat(0x50), String::new(), String::new()),
        Err(PeError::InvalidAddress)
    ));
}

#[test]
fn header_pointer_outside_the_matrix_is_reported() {
    let mut buf: Vec<u8> = vec![0; 0x50];
    buf[0x3C] = 0xFF;
    buf[0x3D] = 0xFF; // header at 0xFFFF, far beyond the buffer
    assert!(matches!(
        read_exe_file(vec_to_string(&buf), String::new(), String::new()),
        Err(PeError::SectionTableOutOfBounds)
    ));
}

#[test]
fn header_pointer_near_the_address_limit_overflows() {
    let mut buf: Vec<u8> = vec![0; 0x50];
    buf[0x3C] = 0xFF;
    buf[0x3D] = 0xFF;
    buf[0x3E] = 0xFF;
    buf[0x3F] = 0xFF; // header at 0xFFFFFFFF: adding any displacement wraps
    assert!(matches!(
        read_exe_file(vec_to_string(&buf), String::new(), String::new()),
        Err(PeError::ArithmeticOverflow)
    ));
}

#[test]
fn unresolvable_import_rva_is_reported() {
    let mut buf = synthetic_image();
    // import directory RVA below the first section's virtual address
    buf[0xC0] = 0x10;
    buf[0xC1] = 0x00;
    assert!(matches!(
        read_exe_file(vec_to_string(&buf), String::new(), String::new()),
        Err(PeError::UnresolvableRva)
    ));
}

#[test]
fn missing_byname_terminator_is_reported() {
    let mut buf = synthetic_image();
    for i in 0x550..0x600 {
        buf[i] = 0x41; // printable everywhere: no four-zero run remains
    }
    assert!(matches!(
        read_exe_file(vec_to_string(&buf), String::new(), String::new()),
        Err(PeError::MalformedBynameTable)
    ));
}

#[test]
fn new_study_is_empty() {
    let study = PeStudy::new();
    assert_eq!(study.pe_head, "");
    assert_eq!(study.subsection_size, "");
    assert_eq!(study.optional_head_size, "");
    assert!(study.subsection_information.is_empty());
    assert_eq!(study.import_real, "");
    assert_eq!(study.iat_shifting, "");
    assert_eq!(study.iat_real, "");
    assert_eq!(study.byname_shifting, "");
    assert_eq!(study.byname_real, "");
    assert!(study.byname_information.is_empty());
    assert!(study.pe_study.is_empty());
    assert_eq!(study.field_name, "");
    assert_eq!(study.field_size, "0 byte");
}

#[test]
fn report_lays_out_every_field() {
    let mut study = PeStudy::new();
    study.pe_head = "00000040".to_string();
    study.subsection_size = "02".to_string();
    study.optional_head_size = "0080".to_string();
    study.subsection_information =
        vec![vec!["00001000".to_string(), "00000400".to_string()]];
    study.import_real = "00001050".to_string();
    study.iat_shifting = "00000450".to_string();
    study.iat_real = "00000500".to_string();
    study.byname_shifting = "00001150".to_string();
    study.byname_real = "00000550".to_string();
    study.byname_information = vec!["4142".to_string()];
    study.field_name = "a.exe".to_string();
    study.field_size = "1 KB".to_string();
    let report = study.generate_report("ok".to_string());
    let mut expected = String::new();
    expected.push_str("===== PE Study Report =====\n\n");
    expected.push_str("1. File Information\n");
    expected.push_str("File name: a.exe\n");
    expected.push_str("File size: 1 KB\n");
    expected.push_str("Result: ok\n\n");
    expected.push_str("2. PE Structure\n");
    expected.push_str("PE header: 00000040\n");
    expected.push_str("Optional header size: 0080\n");
    expected.push_str("Section count: 02\n");
    expected.push_str("Section table:\n");
    expected.push_str("Section 1 (offset, real address):\t00001000\t00000400\t\n");
    expected.push_str("Import table real address: 00001050\n");
    expected.push_str("IAT offset: 00000450\n");
    expected.push_str("IAT real address: 00000500\n");
    expected.push_str("Byname offset: 00001150\n");
    expected.push_str("Byname real address: 00000550\n\n");
    expected.push_str("3. Imported system function names:\n");
    expected.push_str("AB\n");
    expected.push_str("=============================\n");
    assert_eq!(report, expected);
}

#[test]
fn report_of_a_full_analysis_decodes_the_imports() {
    let buf = synthetic_image();
    let study = read_exe_file(vec_to_string(&buf), "a.exe".to_string(), "1.5 KB".to_string())
        .unwrap();
    let report = study.generate_report("No anomalies detected".to_string());
    assert!(report.contains("CreateFileA\n"));
    assert!(report.contains("PE header: 00000040\n"));
    assert!(report.contains("Result: No anomalies detected\n"));
}

#[test]
fn matrix_walk_agrees_with_the_resolved_header() {
    let buf = synthetic_image();
    let study = read_exe_file(vec_to_string(&buf), String::new(), String::new()).unwrap();
    // walking four cells backwards from the header pointer's last byte
    // yields the same address the reader resolved
    assert_eq!(read_hex(&study.pe_study, 4, 3, 15).unwrap(), study.pe_head);
    // and two cells at the optional-header-size field give its value
    assert_eq!(read_hex(&study.pe_study, 2, 5, 5).unwrap(), study.optional_head_size);
}

#[test]
fn analysis_matches_and_reports_in_one_call() {
    let buf = synthetic_image();
    let entries = vec![KnowledgeEntry {
        name: "CreateFile".to_string(),
        description: Some("opens files".to_string()),
        sensitive: true,
    }];
    let (study, message, report) = analysis(
        vec_to_string(&buf),
        "a.exe".to_string(),
        "1.5 KB".to_string(),
        &entries,
    )
    .unwrap();
    assert_eq!(study.byname_information, vec!["43726561746546696c6541".to_string()]);
    assert_eq!(
        message,
        "The executable may try to call 1 sensitive system functions, which could harm the computer: [\"CreateFile:opens files\"]"
    );
    assert!(report.contains(&message));
    assert!(report.contains("CreateFileA\n"));
}

#[test]
fn analysis_with_no_matches_reports_the_all_clear() {
    let buf = synthetic_image();
    let (_study, message, report) = analysis(
        vec_to_string(&buf),
        String::new(),
        String::new(),
        &Vec::new(),
    )
    .unwrap();
    assert_eq!(message, "No anomalies detected");
    assert!(report.contains("Result: No anomalies detected\n"));
}
