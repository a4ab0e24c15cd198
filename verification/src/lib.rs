//! Structural reader for the Windows Portable Executable (PE) format.
//!
//! Given a raw executable byte buffer, the library locates the DOS/PE header
//! chain, the section table, the import directory, the import address table
//! and the import-by-name table, extracts the imported function names, and
//! cross-references them against a knowledge base of sensitive API names to
//! produce a textual risk report.  It also offers a byte-level hex view
//! (address / hex bytes / ASCII translation, 16 bytes per row) that supports
//! single-byte editing and reassembly of the edited buffer.

pub mod byname;
pub mod config;
mod error;
pub mod hex_view;
pub mod hexnum;
pub mod locator;
pub mod matching;
pub mod pe_read;
pub mod pe_service;
pub mod pe_tools;
pub mod response;
pub mod text;

pub use error::PeError;
