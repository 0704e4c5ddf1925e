//! The data model's enumerations and the chunk record.
use vstd::prelude::*;

use crate::ids::{ChunkId, DocumentId};
use crate::text::byte_len;

verus! {

/// Where a piece of knowledge originally came from.
#[derive(Debug, Clone, Copy, PartialEq, Eq, Structural)]
pub enum SourceType {
    File,
    Email,
    Conversation,
    Webpage,
    Profile,
    Inference,
    UserStatement,
}

/// Sensitivity level of a source.
#[derive(Debug, Clone, Copy, PartialEq, Eq, Structural)]
pub enum Sensitivity {
    Public,
    Private,
    Sensitive,
}

impl Default for Sensitivity {
    /// Sources are private unless stated otherwise.
    fn default() -> (s: Self)
        ensures
            s == Sensitivity::Private,
    {
        Sensitivity::Private
    }
}

/// The role a message author played in a conversation.
#[derive(Debug, Clone, Copy, PartialEq, Eq, Structural)]
pub enum MessageRole {
    System,
    User,
    Assistant,
    Tool,
}

/// Kinds of durable memory.
#[derive(Debug, Clone, Copy, PartialEq, Eq, Structural)]
pub enum MemoryType {
    Fact,
    Preference,
    Interest,
    Goal,
    Project,
    Person,
    Location,
    Routine,
    Decision,
    Event,
    Temporary,
}

/// Lifecycle state of a memory.
#[derive(Debug, Clone, Copy, PartialEq, Eq, Structural)]
pub enum MemoryStatus {
    Candidate,
    Active,
    Temporary,
    Superseded,
    Archived,
    Expired,
}

/// The lowercase name a memory type is shown by.
pub open spec fn memory_type_name(v: MemoryType) -> Seq<char> {
    match v {
        MemoryType::Fact => "fact"@,
        MemoryType::Preference => "preference"@,
        MemoryType::Interest => "interest"@,
        MemoryType::Goal => "goal"@,
        MemoryType::Project => "project"@,
        MemoryType::Person => "person"@,
        MemoryType::Location => "location"@,
        MemoryType::Routine => "routine"@,
        MemoryType::Decision => "decision"@,
        MemoryType::Event => "event"@,
        MemoryType::Temporary => "temporary"@,
    }
}

/// The lowercase label of a memory type, for display.
pub fn type_label(v: MemoryType) -> (s: &'static str)
    ensures
        s@ == memory_type_name(v),
{
    match v {
        MemoryType::Fact => "fact",
        MemoryType::Preference => "preference",
        MemoryType::Interest => "interest",
        MemoryType::Goal => "goal",
        MemoryType::Project => "project",
        MemoryType::Person => "person",
        MemoryType::Location => "location",
        MemoryType::Routine => "routine",
        MemoryType::Decision => "decision",
        MemoryType::Event => "event",
        MemoryType::Temporary => "temporary",
    }
}

/// The lowercase name a memory status is shown by.
pub open spec fn memory_status_name(v: MemoryStatus) -> Seq<char> {
    match v {
        MemoryStatus::Candidate => "candidate"@,
        MemoryStatus::Active => "active"@,
        MemoryStatus::Temporary => "temporary"@,
        MemoryStatus::Superseded => "superseded"@,
        MemoryStatus::Archived => "archived"@,
        MemoryStatus::Expired => "expired"@,
    }
}

/// The lowercase label of a memory status, for display.
pub fn status_label(v: MemoryStatus) -> (s: &'static str)
    ensures
        s@ == memory_status_name(v),
{
    match v {
        MemoryStatus::Candidate => "candidate",
        MemoryStatus::Active => "active",
        MemoryStatus::Temporary => "temporary",
        MemoryStatus::Superseded => "superseded",
        MemoryStatus::Archived => "archived",
        MemoryStatus::Expired => "expired",
    }
}

/// A retrievable unit of text carved out of a document.
#[derive(Debug, Clone)]
pub struct Chunk {
    pub id: ChunkId,
    pub document_id: DocumentId,
    pub text: String,
    pub start_offset: usize,
    pub end_offset: usize,
    pub page: Option<u32>,
    pub section: Option<String>,
    /// Ordinal position of this chunk within its document.
    pub chunk_index: usize,
}

impl Chunk {
    /// A chunk covering all of `text` (offsets `0..text.len()`), with a
    /// fresh random id (a version-4 UUID of the RFC 4122 variant) and no page or section.
    pub fn new(document_id: DocumentId, text: String, chunk_index: usize) -> (c: Self)
        ensures
            (c.id.0 >> 76u128) & 0xfu128 == 4,
            (c.id.0 >> 62u128) & 3u128 == 2,
            c.document_id == document_id,
            c.text@ == text@,
            c.start_offset == 0,
            c.end_offset == byte_len(text@) as usize,
            c.page is None,
            c.section is None,
            c.chunk_index == chunk_index,
    {
        let end_offset = text.as_str().len();
        proof {
            crate::text::lemma_byte_len_is_utf8_len(text@);
        }
        Chunk {
            id: ChunkId::new(),
            document_id,
            text,
            start_offset: 0,
            end_offset,
            page: None,
            section: None,
            chunk_index,
        }
    }
}

} // verus!
