//! The analysis service: one call from a hexadecimal dump to the verdict.
//!
//! This composes the reader, the match engine and the report: read the
//! image, compare the extracted import names against the knowledge base,
//! phrase the user-facing summary, and render the full report around it.

use vstd::prelude::*;
use vstd::string::StringExecFns;

use crate::error::PeError;
use crate::hexnum::hex_lower_of;
use crate::matching::{
    analysis_message, analysis_message_spec, match_knowledge, matches_spec, KnowledgeEntry,
};
use crate::pe_read::{
    bytes_of_hex, hex_pairs_ok, read_exe_file, report_spec, study_matches, PeStudy,
};
use crate::locator::layout_of;

verus! {

/// Analyses one image: the study with every resolved field, the summary of
/// the knowledge-base matches, and the full report text.  Failures are
/// exactly those of `read_exe_file`.
pub fn analysis(
    hex_string: String,
    file_name: String,
    file_size: String,
    entries: &Vec<KnowledgeEntry>,
) -> (r: Result<(PeStudy, String, String), PeError>)
    ensures
        !hex_pairs_ok(hex_string@) ==> r is Err && r.unwrap_err()
            == PeError::InvalidAddress,
        hex_pairs_ok(hex_string@) ==> match layout_of(bytes_of_hex(hex_string@)) {
            Err(e) => r is Err && r.unwrap_err() == e,
            Ok(m) => {
                &&& r is Ok
                &&& study_matches(
                    r.unwrap().0,
                    m,
                    bytes_of_hex(hex_string@),
                    file_name@,
                    file_size@,
                )
                &&& r.unwrap().1@ == analysis_message_spec(
                    matches_spec(
                        m.tokens.map_values(|t: Seq<u8>| hex_lower_of(t)),
                        entries@,
                    ),
                )
                &&& r.unwrap().2@ == report_spec(r.unwrap().0, r.unwrap().1@)
            },
        },
{
    let study = match read_exe_file(hex_string, file_name, file_size) {
        Ok(study) => study,
        Err(e) => {
            return Err(e);
        },
    };
    let matches = match_knowledge(&study.byname_information, entries);
    let message = analysis_message(&matches);
    let report = study.generate_report(message.clone());
    Ok((study, message, report))
}

} // verus!
