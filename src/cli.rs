//! What the command line gives: the input file and where the statement goes.
use std::path::PathBuf;
use vstd::prelude::*;

verus! {

/// Relies on `std::path::PathBuf` only as an opaque value handed through to
/// the caller's file handling; nothing is read from it.
#[verifier::external_type_specification]
#[verifier::external_body]
pub struct ExPathBuf(PathBuf);

/// The command line: the input CSV file and, optionally, a file to save the
/// statement to instead of printing it.
#[derive(Debug)]
pub struct Args {
    pub path: PathBuf,
    pub output: Option<PathBuf>,
}

} // verus!
