//! Plain text needs no transformation beyond reading it as UTF-8.
use vstd::prelude::*;

use crate::ingest::error::IngestError;

verus! {

/// The text itself.
pub fn parse(raw: &str) -> (r: Result<String, IngestError>)
    ensures
        r matches Ok(t) && t@ == raw@,
{
    Ok(String::from_str(raw))
}

} // verus!
