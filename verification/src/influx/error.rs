//! The ways in which a conversion fails.

use vstd::prelude::*;

verus! {

/// Why a conversion stopped. The first failure ends the run: nothing is
/// skipped and nothing is retried.
#[derive(Debug, Clone, Copy, PartialEq, Eq, Structural)]
pub enum ConvertError {
    /// The bytes of a line of line protocol are not UTF-8. `line` counts the
    /// lines of the input from 1.
    Encoding { line: usize },
    /// A line of line protocol is malformed. `line` counts the lines of the
    /// input from 1.
    Parse { line: usize },
    /// The CSV reader could not read a record, for another reason than its
    /// length: of bytes held in memory, that they are not UTF-8. `record`
    /// counts the records of the file from 1, the header being record 0.
    Csv { record: usize },
    /// A CSV record has not as many cells as the header of its file, or the
    /// header leaves a record without a field or with more than one
    /// timestamp. `record` counts the records of the file from 1.
    Schema { record: usize },
    /// The timestamp cell of a CSV record is not an integer, or its value in
    /// nanoseconds is outside the 64-bit range. `record` counts the records
    /// of the file from 1.
    Type { record: usize },
    /// A path names no file, so that no measurement can be taken from it.
    NoFileName,
    /// A directory was given where the command reads a single file.
    NotAFile,
}

/// A conversion that stopped at a failure: why it stopped, and what it had
/// written by then. Nothing of what was written before the failure is taken
/// back.
#[derive(Debug, PartialEq, Eq)]
pub struct Stopped {
    pub cause: ConvertError,
    pub written: Vec<u8>,
}

/// Whether `output` is what a run gives that wrote `lines.0` and that ended
/// with the failure `lines.1`, or with none.
pub open spec fn run_matches(
    output: Result<Vec<u8>, Stopped>,
    lines: (Seq<u8>, Option<ConvertError>),
) -> bool {
    match output {
        Ok(bytes) => lines == (bytes@, None::<ConvertError>),
        Err(stopped) => lines == (stopped.written@, Some(stopped.cause)),
    }
}

} // verus!
