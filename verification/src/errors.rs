//! Structural errors reported while scanning files and validating the graph.

use vstd::prelude::*;
use crate::strutil::{push_str, spec_digits, u32_str};

verus! {

broadcast use vstd::string::group_string_axioms;

/// A fatal structural error: malformed or unresolvable annotations, or a
/// target that does not exist anywhere in the scanned set.
#[derive(Clone, Debug)]
pub enum Error {
    /// Two named blocks in one file share a name.
    DuplicateBlockName { file: String, name: String, first_line: u32, second_line: u32 },
    /// A close marker appeared with no open block on the stack.
    ThenChangeNoOnChange { file: String, line: u32 },
    /// A target path was neither relative nor root-relative, or used a dot
    /// component anywhere but as a prefix, or walked above the root.
    InvalidTargetFile { file: String, line: u32, target: String },
    /// A target path does not name a file that exists under the root.
    TargetFileDoesNotExist { file: String, line: u32, target: String },
    /// End of file was reached while a block was still open.
    UnclosedBlock { file: String, name: Option<String>, start_line: u32 },
    /// A file named when building the graph does not exist under the root.
    SeedFileDoesNotExist { path: String },
    /// A block declares a whole-file target that no scanned file matches.
    NonExistentFileTarget { file: String, name: Option<String>, end_line: u32, target: String },
    /// A block declares a block target that no targetable block matches.
    NonExistentBlockTarget {
        file: String,
        name: Option<String>,
        end_line: u32,
        target_file: String,
        target_block: String,
    },
    /// A block was left with an unset target; never produced by a finished scan.
    UnsetTarget { file: String, name: Option<String>, end_line: u32 },
    /// A line number in a staged diff does not fit the supported range.
    HunkOutOfRange { path: String },
}

/// The mathematical value of an [`Error`].
pub enum ErrorV {
    DuplicateBlockName { file: Seq<char>, name: Seq<char>, first_line: int, second_line: int },
    ThenChangeNoOnChange { file: Seq<char>, line: int },
    InvalidTargetFile { file: Seq<char>, line: int, target: Seq<char> },
    TargetFileDoesNotExist { file: Seq<char>, line: int, target: Seq<char> },
    UnclosedBlock { file: Seq<char>, name: Option<Seq<char>>, start_line: int },
    SeedFileDoesNotExist { path: Seq<char> },
    NonExistentFileTarget { file: Seq<char>, name: Option<Seq<char>>, end_line: int, target: Seq<char> },
    NonExistentBlockTarget {
        file: Seq<char>,
        name: Option<Seq<char>>,
        end_line: int,
        target_file: Seq<char>,
        target_block: Seq<char>,
    },
    UnsetTarget { file: Seq<char>, name: Option<Seq<char>>, end_line: int },
    HunkOutOfRange { path: Seq<char> },
}

impl View for Error {
    type V = ErrorV;

    open spec fn view(&self) -> ErrorV {
        match self {
            Error::DuplicateBlockName { file, name, first_line, second_line } =>
                ErrorV::DuplicateBlockName {
                    file: file@,
                    name: name@,
                    first_line: *first_line as int,
                    second_line: *second_line as int,
                },
            Error::ThenChangeNoOnChange { file, line } => ErrorV::ThenChangeNoOnChange {
                file: file@,
                line: *line as int,
            },
            Error::InvalidTargetFile { file, line, target } => ErrorV::InvalidTargetFile {
                file: file@,
                line: *line as int,
                target: target@,
            },
            Error::TargetFileDoesNotExist { file, line, target } =>
                ErrorV::TargetFileDoesNotExist {
                    file: file@,
                    line: *line as int,
                    target: target@,
                },
            Error::UnclosedBlock { file, name, start_line } => ErrorV::UnclosedBlock {
                file: file@,
                name: name.deep_view(),
                start_line: *start_line as int,
            },
            Error::SeedFileDoesNotExist { path } => ErrorV::SeedFileDoesNotExist { path: path@ },
            Error::NonExistentFileTarget { file, name, end_line, target } =>
                ErrorV::NonExistentFileTarget {
                    file: file@,
                    name: name.deep_view(),
                    end_line: *end_line as int,
                    target: target@,
                },
            Error::NonExistentBlockTarget { file, name, end_line, target_file, target_block } =>
                ErrorV::NonExistentBlockTarget {
                    file: file@,
                    name: name.deep_view(),
                    end_line: *end_line as int,
                    target_file: target_file@,
                    target_block: target_block@,
                },
            Error::UnsetTarget { file, name, end_line } => ErrorV::UnsetTarget {
                file: file@,
                name: name.deep_view(),
                end_line: *end_line as int,
            },
            Error::HunkOutOfRange { path } => ErrorV::HunkOutOfRange { path: path@ },
        }
    }
}


/// The name a block is reported under: its own, or a placeholder.
pub open spec fn spec_name_text(name: Option<Seq<char>>) -> Seq<char> {
    match name {
        Some(n) => n,
        None => "<unnamed>"@,
    }
}

/// The human-readable description of an error.
pub open spec fn spec_error_message(e: ErrorV) -> Seq<char> {
    match e {
        ErrorV::DuplicateBlockName { file, name, first_line, second_line } =>
            "duplicate block name \""@ + name + "\" found on "@ + file + ":"@ + spec_digits(
                first_line as nat,
            ) + " and "@ + file + ":"@ + spec_digits(second_line as nat),
        ErrorV::ThenChangeNoOnChange { file, line } => "found ThenChange at \""@ + file + ":"@
            + spec_digits(line as nat) + "\" with no matching OnChange"@,
        ErrorV::InvalidTargetFile { file, line, target } => "ThenChange target file \""@ + target
            + "\" at "@ + file + ":"@ + spec_digits(line as nat) + " is invalid"@,
        ErrorV::TargetFileDoesNotExist { file, line, target } => "ThenChange target file \""@
            + target + "\" at "@ + file + ":"@ + spec_digits(line as nat) + " does not exist"@,
        ErrorV::UnclosedBlock { file, name, start_line } => "reached end of file "@ + file
            + " while looking for ThenChange for block \""@ + spec_name_text(name)
            + "\" which started on line "@ + spec_digits(start_line as nat),
        ErrorV::SeedFileDoesNotExist { path } => "file with path \""@ + path
            + "\" does not exist"@,
        ErrorV::NonExistentFileTarget { file, name, end_line, target } => "block \""@
            + spec_name_text(name) + "\" at \""@ + file + ":"@ + spec_digits(end_line as nat)
            + "\" has non-existent ThenChange target \""@ + target + "\""@,
        ErrorV::NonExistentBlockTarget { file, name, end_line, target_file, target_block } =>
            "block \""@ + spec_name_text(name) + "\" at \""@ + file + ":"@ + spec_digits(
                end_line as nat,
            ) + "\" has non-existent ThenChange target \""@ + target_file + ":"@ + target_block
            + "\""@,
        ErrorV::UnsetTarget { file, name, end_line } => "block \""@ + spec_name_text(name)
            + "\" in file \""@ + file + "\" has an unset OnChange target (line "@ + spec_digits(
                end_line as nat,
            ) + ")"@,
        ErrorV::HunkOutOfRange { path } => "staged hunk in \""@ + path
            + "\" has line numbers out of range"@,
    }
}

/// Appends a block's reported name to `out`.
fn push_name(out: &mut String, name: &Option<String>)
    ensures
        final(out)@ == old(out)@ + spec_name_text(match name {
            Some(n) => Some(n@),
            None => None,
        }),
{
    match name {
        Some(n) => push_str(out, n.as_str()),
        None => push_str(out, "<unnamed>"),
    }
}

impl Error {
    /// The human-readable description of this error.
    pub fn to_string(&self) -> (r: String)
        ensures
            r@ == spec_error_message(self@),
    {
        let mut out = String::new();
        match self {
            Error::DuplicateBlockName { file, name, first_line, second_line } => {
                push_str(&mut out, "duplicate block name \"");
                push_str(&mut out, name.as_str());
                push_str(&mut out, "\" found on ");
                push_str(&mut out, file.as_str());
                push_str(&mut out, ":");
                let l1 = u32_str(*first_line);
                push_str(&mut out, l1.as_str());
                push_str(&mut out, " and ");
                push_str(&mut out, file.as_str());
                push_str(&mut out, ":");
                let l2 = u32_str(*second_line);
                push_str(&mut out, l2.as_str());
            },
            Error::ThenChangeNoOnChange { file, line } => {
                push_str(&mut out, "found ThenChange at \"");
                push_str(&mut out, file.as_str());
                push_str(&mut out, ":");
                let l = u32_str(*line);
                push_str(&mut out, l.as_str());
                push_str(&mut out, "\" with no matching OnChange");
            },
            Error::InvalidTargetFile { file, line, target } => {
                push_str(&mut out, "ThenChange target file \"");
                push_str(&mut out, target.as_str());
                push_str(&mut out, "\" at ");
                push_str(&mut out, file.as_str());
                push_str(&mut out, ":");
                let l = u32_str(*line);
                push_str(&mut out, l.as_str());
                push_str(&mut out, " is invalid");
            },
            Error::TargetFileDoesNotExist { file, line, target } => {
                push_str(&mut out, "ThenChange target file \"");
                push_str(&mut out, target.as_str());
                push_str(&mut out, "\" at ");
                push_str(&mut out, file.as_str());
                push_str(&mut out, ":");
                let l = u32_str(*line);
                push_str(&mut out, l.as_str());
                push_str(&mut out, " does not exist");
            },
            Error::UnclosedBlock { file, name, start_line } => {
                push_str(&mut out, "reached end of file ");
                push_str(&mut out, file.as_str());
                push_str(&mut out, " while looking for ThenChange for block \"");
                push_name(&mut out, name);
                push_str(&mut out, "\" which started on line ");
                let l = u32_str(*start_line);
                push_str(&mut out, l.as_str());
            },
            Error::SeedFileDoesNotExist { path } => {
                push_str(&mut out, "file with path \"");
                push_str(&mut out, path.as_str());
                push_str(&mut out, "\" does not exist");
            },
            Error::NonExistentFileTarget { file, name, end_line, target } => {
                push_str(&mut out, "block \"");
                push_name(&mut out, name);
                push_str(&mut out, "\" at \"");
                push_str(&mut out, file.as_str());
                push_str(&mut out, ":");
                let l = u32_str(*end_line);
                push_str(&mut out, l.as_str());
                push_str(&mut out, "\" has non-existent ThenChange target \"");
                push_str(&mut out, target.as_str());
                push_str(&mut out, "\"");
            },
            Error::NonExistentBlockTarget { file, name, end_line, target_file, target_block } => {
                push_str(&mut out, "block \"");
                push_name(&mut out, name);
                push_str(&mut out, "\" at \"");
                push_str(&mut out, file.as_str());
                push_str(&mut out, ":");
                let l = u32_str(*end_line);
                push_str(&mut out, l.as_str());
                push_str(&mut out, "\" has non-existent ThenChange target \"");
                push_str(&mut out, target_file.as_str());
                push_str(&mut out, ":");
                push_str(&mut out, target_block.as_str());
                push_str(&mut out, "\"");
            },
            Error::UnsetTarget { file, name, end_line } => {
                push_str(&mut out, "block \"");
                push_name(&mut out, name);
                push_str(&mut out, "\" in file \"");
                push_str(&mut out, file.as_str());
                push_str(&mut out, "\" has an unset OnChange target (line ");
                let l = u32_str(*end_line);
                push_str(&mut out, l.as_str());
                push_str(&mut out, ")");
            },
            Error::HunkOutOfRange { path } => {
                push_str(&mut out, "staged hunk in \"");
                push_str(&mut out, path.as_str());
                push_str(&mut out, "\" has line numbers out of range");
            },
        }
        proof {
            assert(out@ =~= spec_error_message(self@));
        }
        out
    }
}

} // verus!
