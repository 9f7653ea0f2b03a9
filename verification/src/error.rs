//! The failures of parsing and of resolving files.

use vstd::prelude::*;

verus! {

/// The ways in which reading a pattern or an instrumentation, or resolving
/// a sample file, fails.
#[derive(Debug, PartialEq, Eq)]
pub enum Error {
    /// A line is malformed. Carries the line.
    ParseError(Vec<u8>),
    /// More than one step sequence is listed for the same instrument in a
    /// pattern. Carries the line that lists the later one.
    DuplicatePatternError(Vec<u8>),
    /// More than one sample file is bound to the same instrument in an
    /// instrumentation. Carries the instrument's name.
    DuplicateInstrumentError(Vec<u8>),
    /// A necessary file does not exist. Carries the file's path.
    FileDoesNotExistError(Vec<u8>),
}

/// What an [`Error`] says, as a mathematical value.
pub enum Failure {
    /// A malformed line.
    Parse(Seq<u8>),
    /// A line that lists an instrument of a pattern again.
    DuplicatePattern(Seq<u8>),
    /// An instrument that is bound again.
    DuplicateInstrument(Seq<u8>),
    /// The path of a file that does not exist.
    FileDoesNotExist(Seq<u8>),
}

impl View for Error {
    type V = Failure;

    open spec fn view(&self) -> Failure {
        match self {
            Error::ParseError(line) => Failure::Parse(line@),
            Error::DuplicatePatternError(line) => Failure::DuplicatePattern(line@),
            Error::DuplicateInstrumentError(name) => Failure::DuplicateInstrument(name@),
            Error::FileDoesNotExistError(path) => Failure::FileDoesNotExist(path@),
        }
    }
}

} // verus!
