//! A change-consistency linter library.
//!
//! Source trees may carry paired annotation markers that declare "when this
//! block changes, another named block or file must change too".  This crate
//! scans file contents for those markers, builds a validated graph of blocks
//! and their declared targets, and checks a set of staged line-level changes
//! against that graph, reporting every block whose declared targets did not
//! change along with it.
//!
//! All I/O (reading files, walking directories, talking to version control)
//! is left to the caller: every function here works on plain values.

pub mod diff;
pub mod errors;
pub mod file;
pub mod hunk;
pub mod laws;
pub mod parser;
pub mod paths;
pub mod scan;
pub mod strutil;

pub use diff::{parse_staged_file_list, staged_hunks_from_patches};
pub use errors::Error;
pub use file::{File, OnChangeBlock, ThenChange, ThenChangeTarget};
pub use hunk::{Hunk, Line, LineKind};
pub use parser::{OnChangeViolation, Parser};
