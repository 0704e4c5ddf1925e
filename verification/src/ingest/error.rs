//! Errors of ingestion.
use vstd::prelude::*;

verus! {

/// Why a file could not be ingested.
#[derive(Debug)]
pub enum IngestError {
    /// The file kind (or extension) is not one this crate parses.
    UnsupportedType(String),
    /// Reading the file failed (the I/O error's message).
    Io(String),
    /// The content could not be parsed.
    Parse(String),
}

} // verus!
