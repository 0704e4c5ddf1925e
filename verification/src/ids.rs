//! Identifiers for stored entities. Each wraps the 128-bit value of a
//! random (version 4) UUID, so ids of different entities cannot be mixed
//! up and compare by value.
use vstd::prelude::*;

verus! {

/// Calls `uuid::Uuid::new_v4` and returns the UUID as its 128-bit
/// big-endian value (`Uuid::as_u128`). The value is random; the crate
/// masks in only the version and the variant: the version nibble (bits
/// 76..80 of the value) is 4, and the two variant bits (62..64) are `10`,
/// the RFC 4122 variant.
#[verifier::external_body]
fn random_uuid() -> (id: u128)
    ensures
        (id >> 76u128) & 0xfu128 == 4,
        (id >> 62u128) & 3u128 == 2,
{
    uuid::Uuid::new_v4().as_u128()
}

/// Identifier of a [`crate::models::Chunk`].
#[derive(Debug, Clone, Copy, PartialEq, Eq, Structural)]
pub struct ChunkId(pub u128);

/// Identifier of a document.
#[derive(Debug, Clone, Copy, PartialEq, Eq, Structural)]
pub struct DocumentId(pub u128);

/// Identifier of a source.
#[derive(Debug, Clone, Copy, PartialEq, Eq, Structural)]
pub struct SourceId(pub u128);

impl ChunkId {
    /// A fresh random identifier: a version-4 UUID of the RFC 4122 variant.
    pub fn new() -> (id: Self)
        ensures
            (id.0 >> 76u128) & 0xfu128 == 4,
            (id.0 >> 62u128) & 3u128 == 2,
    {
        ChunkId(random_uuid())
    }

    /// Wraps an existing 128-bit UUID value.
    pub fn from_u128(v: u128) -> (id: Self)
        ensures
            id.0 == v,
    {
        ChunkId(v)
    }
}

impl DocumentId {
    /// A fresh random identifier: a version-4 UUID of the RFC 4122 variant.
    pub fn new() -> (id: Self)
        ensures
            (id.0 >> 76u128) & 0xfu128 == 4,
            (id.0 >> 62u128) & 3u128 == 2,
    {
        DocumentId(random_uuid())
    }

    /// Wraps an existing 128-bit UUID value.
    pub fn from_u128(v: u128) -> (id: Self)
        ensures
            id.0 == v,
    {
        DocumentId(v)
    }
}

impl SourceId {
    /// A fresh random identifier: a version-4 UUID of the RFC 4122 variant.
    pub fn new() -> (id: Self)
        ensures
            (id.0 >> 76u128) & 0xfu128 == 4,
            (id.0 >> 62u128) & 3u128 == 2,
    {
        SourceId(random_uuid())
    }

    /// Wraps an existing 128-bit UUID value.
    pub fn from_u128(v: u128) -> (id: Self)
        ensures
            id.0 == v,
    {
        SourceId(v)
    }
}

} // verus!
