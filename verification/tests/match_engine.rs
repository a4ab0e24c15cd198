use pe_study::matching::{analysis_message, match_knowledge, KnowledgeEntry};
use pe_study::pe_tools::vec_to_string;

fn entry(name: &str, desc: Option<&str>) -> KnowledgeEntry {
    KnowledgeEntry {
        name: name.to_string(),
        description: desc.map(|d| d.to_string()),
        sensitive: true,
    }
}

#[test]
fn a_longer_import_reports_the_entry_it_contains() {
    let byname = vec![vec_to_string(b"CreateRemoteThreadEx")];
    let entries = vec![entry("CreateRemoteThread", Some("injects code into other processes"))];
    let matches = match_knowledge(&byname, &entries);
    assert_eq!(matches.len(), 1);
    assert_eq!(matches[0], "CreateRemoteThread:injects code into other processes");
}

#[test]
fn non_matching_imports_report_nothing() {
    let byname = vec![vec_to_string(b"CloseHandle")];
    let entries = vec![entry("CreateRemoteThread", Some("d"))];
    assert!(match_knowledge(&byname, &entries).is_empty());
}

#[test]
fn short_tokens_are_ignored() {
    // two hexadecimal digits stand for one byte: too short to consider
    let byname = vec![vec_to_string(b"A")];
    let entries = vec![entry("A", Some("d"))];
    assert!(match_knowledge(&byname, &entries).is_empty());
}

#[test]
fn every_pair_matches_in_order_with_duplicates_kept() {
    let byname = vec![
        vec_to_string(b"CreateFileA"),
        vec_to_string(b"CreateFileW"),
    ];
    let entries = vec![
        entry("CreateFile", Some("opens files")),
        entry("File", None),
    ];
    let matches = match_knowledge(&byname, &entries);
    assert_eq!(
        matches,
        vec![
            "CreateFile:opens files".to_string(),
            "File:".to_string(),
            "CreateFile:opens files".to_string(),
            "File:".to_string(),
        ]
    );
}

#[test]
fn summary_counts_and_quotes_the_matches() {
    let matches = vec!["A:d1".to_string(), "B:".to_string()];
    assert_eq!(
        analysis_message(&matches),
        "The executable may try to call 2 sensitive system functions, which could harm the computer: [\"A:d1\", \"B:\"]"
    );
}

#[test]
fn summary_reports_the_all_clear() {
    assert_eq!(analysis_message(&Vec::new()), "No anomalies detected");
}
