//! The error taxonomy of a resolution and the stable caller-facing messages.

use vstd::prelude::*;

verus! {

/// Errors a resolution can surface to callers.
#[derive(Clone, Copy, Debug, PartialEq, Eq, Structural)]
pub enum ParseError {
    /// The requested version is newer than the behavior table this library
    /// implements.
    VersionTooNewError,
    /// A resource-exhaustion failure in the surrounding machinery.
    MemoryError,
    /// Resolution must be asked for an absolute path and returns this error
    /// when it was asked for a relative path instead.
    NotFullPathError,
    /// A configuration file is malformed; carries the 1-based line number of
    /// the first offending line.
    LineError(i32),
}

/// A resolution failure together with which candidate file caused it.
#[derive(Clone, Copy, Debug, PartialEq, Eq, Structural)]
pub enum ResolutionError {
    /// The target path was not absolute.
    RelativePathError,
    /// The candidate file at `file_index` (nearest-first order) is malformed
    /// at the given 1-based line.
    SyntaxError {
        /// Index of the offending candidate file, nearest to the target first.
        file_index: usize,
        /// 1-based number of the first malformed line.
        line: usize,
    },
    /// The requested version is newer than the supported behavior table.
    VersionTooNew,
}

/// Collapses a resolution failure to the caller-facing error kind.
pub fn parse_error_of(e: &ResolutionError) -> (r: ParseError)
    ensures
        match *e {
            ResolutionError::RelativePathError => r == ParseError::NotFullPathError,
            ResolutionError::VersionTooNew => r == ParseError::VersionTooNewError,
            ResolutionError::SyntaxError { file_index, line } => r == ParseError::LineError(
                if line <= 0x7fffffff {
                    line as i32
                } else {
                    0x7fffffffi32
                },
            ),
        },
{
    match *e {
        ResolutionError::RelativePathError => ParseError::NotFullPathError,
        ResolutionError::VersionTooNew => ParseError::VersionTooNewError,
        ResolutionError::SyntaxError { file_index: _, line } => {
            if line <= 0x7fffffff {
                ParseError::LineError(line as i32)
            } else {
                ParseError::LineError(0x7fffffffi32)
            }
        },
    }
}

/// The stable human-readable message for each error kind. A line error with a
/// non-positive line number names no failure and has no message.
pub fn get_error_message(parse_error: ParseError) -> (r: Option<String>)
    ensures
        match parse_error {
            ParseError::VersionTooNewError => r is Some && r.unwrap()@
                == "Required version is greater than the current version."@,
            ParseError::MemoryError => r is Some && r.unwrap()@ == "Memory error."@,
            ParseError::NotFullPathError => r is Some && r.unwrap()@
                == "Input file must be a full path name."@,
            ParseError::LineError(n) => if n > 0 {
                r is Some && r.unwrap()@ == "Failed to parse file."@
            } else {
                r is None
            },
        },
{
    match parse_error {
        ParseError::VersionTooNewError => Some(
            "Required version is greater than the current version.".to_owned(),
        ),
        ParseError::MemoryError => Some("Memory error.".to_owned()),
        ParseError::NotFullPathError => Some("Input file must be a full path name.".to_owned()),
        ParseError::LineError(n) => {
            if n > 0 {
                Some("Failed to parse file.".to_owned())
            } else {
                None
            }
        },
    }
}

} // verus!
