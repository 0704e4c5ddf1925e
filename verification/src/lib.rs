use vstd::prelude::*;

pub mod text;
pub mod ids;
pub mod models;
pub mod storage;
pub mod ingest;
pub mod search;
pub mod embeddings;

verus! {

} // verus!
