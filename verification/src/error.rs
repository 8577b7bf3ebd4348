//! The library's error type.
use std::path::PathBuf;
use vstd::prelude::*;

verus! {

#[verifier::external_type_specification]
#[verifier::external_body]
pub struct ExPathBuf(std::path::PathBuf);

#[verifier::external_type_specification]
#[verifier::external_body]
pub struct ExIoError(std::io::Error);

/// `PathBuf::clone`, which entry descriptors use when they are copied; nothing is claimed of
/// the copy.
pub assume_specification[ <std::path::PathBuf as std::clone::Clone>::clone ](p: &std::path::PathBuf) -> std::path::PathBuf;

#[derive(Debug)]
pub enum ParaflateError {
    Io(std::io::Error),
    InvalidPath(PathBuf),
    EmptyArchive,
    EntryNotFound(String),
    CompressionFailed(String),
    ZipStructure(String),
    SchedulerShutdown,
    WorkerJoin,
    InvariantViolated(String),
    VerificationFailed { message: String, entry: Option<String> },
    PredictivePlanning(String),
    UnsupportedInput(String),
    ArchiveConsistency(String),
}

pub type ParaflateResult<T> = Result<T, ParaflateError>;

impl ParaflateError {
    /// A verification failure, with the entry it concerns when there is one.
    pub fn verification(message: String, entry: Option<String>) -> (r: Self)
        ensures
            r == (ParaflateError::VerificationFailed { message, entry }),
    {
        ParaflateError::VerificationFailed { message, entry }
    }
}

} // verus!
