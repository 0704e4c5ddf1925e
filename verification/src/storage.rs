//! How the data model's enumerations are written as text in storage,
//! and read back.
use vstd::prelude::*;

use crate::models::{MemoryStatus, MemoryType, MessageRole, Sensitivity, SourceType};
use crate::text::{chars_of, eq_lit};

verus! {

/// Errors of the storage layer.
#[derive(Debug)]
pub enum StorageError {
    /// The schema could not be applied.
    Migration(String),
    /// The database engine reported an error (its message).
    Sqlite(String),
    /// A stored value could not be decoded.
    Decode(String),
    /// No row had the requested key.
    NotFound(String),
}

/// `"unknown <what> '<value>'"`, the message of a failed decode.
pub open spec fn unknown_message(what: Seq<char>, value: Seq<char>) -> Seq<char> {
    "unknown "@ + what + " '"@ + value + "'"@
}

fn unknown_value(what: &str, value: &str) -> (e: StorageError)
    ensures
        e matches StorageError::Decode(m) && m@ == unknown_message(what@, value@),
{
    let mut m = String::from_str("unknown ");
    m.append(what);
    m.append(" '");
    m.append(value);
    m.append("'");
    StorageError::Decode(m)
}
/// The stored text of each `SourceType`.
pub open spec fn source_type_code(v: SourceType) -> Seq<char> {
    match v {
        SourceType::File => seq!['F', 'I', 'L', 'E'],
        SourceType::Email => seq!['E', 'M', 'A', 'I', 'L'],
        SourceType::Conversation => seq!['C', 'O', 'N', 'V', 'E', 'R', 'S', 'A', 'T', 'I', 'O', 'N'],
        SourceType::Webpage => seq!['W', 'E', 'B', 'P', 'A', 'G', 'E'],
        SourceType::Profile => seq!['P', 'R', 'O', 'F', 'I', 'L', 'E'],
        SourceType::Inference => seq!['I', 'N', 'F', 'E', 'R', 'E', 'N', 'C', 'E'],
        SourceType::UserStatement => seq!['U', 'S', 'E', 'R', '_', 'S', 'T', 'A', 'T', 'E', 'M', 'E', 'N', 'T'],
    }
}

/// The `SourceType` whose stored text is `s`, if any.
pub open spec fn parse_source_type(s: Seq<char>) -> Option<SourceType> {
    if s == seq!['F', 'I', 'L', 'E'] {
        Some(SourceType::File)
    }     else if s == seq!['E', 'M', 'A', 'I', 'L'] {
        Some(SourceType::Email)
    }     else if s == seq!['C', 'O', 'N', 'V', 'E', 'R', 'S', 'A', 'T', 'I', 'O', 'N'] {
        Some(SourceType::Conversation)
    }     else if s == seq!['W', 'E', 'B', 'P', 'A', 'G', 'E'] {
        Some(SourceType::Webpage)
    }     else if s == seq!['P', 'R', 'O', 'F', 'I', 'L', 'E'] {
        Some(SourceType::Profile)
    }     else if s == seq!['I', 'N', 'F', 'E', 'R', 'E', 'N', 'C', 'E'] {
        Some(SourceType::Inference)
    }     else if s == seq!['U', 'S', 'E', 'R', '_', 'S', 'T', 'A', 'T', 'E', 'M', 'E', 'N', 'T'] {
        Some(SourceType::UserStatement)
    } else {
        None
    }
}

/// The text `SourceType` is stored as.
pub fn source_type_to_str(v: SourceType) -> (s: &'static str)
    ensures
        s@ == source_type_code(v),
{
    match v {
        SourceType::File => {
            proof {
                reveal_strlit("FILE");
                assert("FILE"@ =~= seq!['F', 'I', 'L', 'E']);
            }
            "FILE"
        },
        SourceType::Email => {
            proof {
                reveal_strlit("EMAIL");
                assert("EMAIL"@ =~= seq!['E', 'M', 'A', 'I', 'L']);
            }
            "EMAIL"
        },
        SourceType::Conversation => {
            proof {
                reveal_strlit("CONVERSATION");
                assert("CONVERSATION"@ =~= seq!['C', 'O', 'N', 'V', 'E', 'R', 'S', 'A', 'T', 'I', 'O', 'N']);
            }
            "CONVERSATION"
        },
        SourceType::Webpage => {
            proof {
                reveal_strlit("WEBPAGE");
                assert("WEBPAGE"@ =~= seq!['W', 'E', 'B', 'P', 'A', 'G', 'E']);
            }
            "WEBPAGE"
        },
        SourceType::Profile => {
            proof {
                reveal_strlit("PROFILE");
                assert("PROFILE"@ =~= seq!['P', 'R', 'O', 'F', 'I', 'L', 'E']);
            }
            "PROFILE"
        },
        SourceType::Inference => {
            proof {
                reveal_strlit("INFERENCE");
                assert("INFERENCE"@ =~= seq!['I', 'N', 'F', 'E', 'R', 'E', 'N', 'C', 'E']);
            }
            "INFERENCE"
        },
        SourceType::UserStatement => {
            proof {
                reveal_strlit("USER_STATEMENT");
                assert("USER_STATEMENT"@ =~= seq!['U', 'S', 'E', 'R', '_', 'S', 'T', 'A', 'T', 'E', 'M', 'E', 'N', 'T']);
            }
            "USER_STATEMENT"
        },
    }
}

/// Reads back a stored `SourceType`; any other text is a decode error.
pub fn str_to_source_type(s: &str) -> (r: Result<SourceType, StorageError>)
    ensures
        parse_source_type(s@) matches Some(v) ==> r == Ok::<SourceType, StorageError>(v),
        parse_source_type(s@) is None ==> (r matches Err(StorageError::Decode(m)) && m@ == unknown_message("source_type"@, s@)),
{
    let v = chars_of(s);
    if eq_lit(&v, "FILE") {
        proof {
            reveal_strlit("FILE");
            assert(v@ =~= seq!['F', 'I', 'L', 'E']);
        }
        return Ok(SourceType::File);
    }
    if eq_lit(&v, "EMAIL") {
        proof {
            reveal_strlit("EMAIL");
            assert(v@ =~= seq!['E', 'M', 'A', 'I', 'L']);
        }
        return Ok(SourceType::Email);
    }
    if eq_lit(&v, "CONVERSATION") {
        proof {
            reveal_strlit("CONVERSATION");
            assert(v@ =~= seq!['C', 'O', 'N', 'V', 'E', 'R', 'S', 'A', 'T', 'I', 'O', 'N']);
        }
        return Ok(SourceType::Conversation);
    }
    if eq_lit(&v, "WEBPAGE") {
        proof {
            reveal_strlit("WEBPAGE");
            assert(v@ =~= seq!['W', 'E', 'B', 'P', 'A', 'G', 'E']);
        }
        return Ok(SourceType::Webpage);
    }
    if eq_lit(&v, "PROFILE") {
        proof {
            reveal_strlit("PROFILE");
            assert(v@ =~= seq!['P', 'R', 'O', 'F', 'I', 'L', 'E']);
        }
        return Ok(SourceType::Profile);
    }
    if eq_lit(&v, "INFERENCE") {
        proof {
            reveal_strlit("INFERENCE");
            assert(v@ =~= seq!['I', 'N', 'F', 'E', 'R', 'E', 'N', 'C', 'E']);
        }
        return Ok(SourceType::Inference);
    }
    if eq_lit(&v, "USER_STATEMENT") {
        proof {
            reveal_strlit("USER_STATEMENT");
            assert(v@ =~= seq!['U', 'S', 'E', 'R', '_', 'S', 'T', 'A', 'T', 'E', 'M', 'E', 'N', 'T']);
        }
        return Ok(SourceType::UserStatement);
    }
    proof {
        reveal_strlit("FILE");
        assert("FILE"@ =~= seq!['F', 'I', 'L', 'E']);
        reveal_strlit("EMAIL");
        assert("EMAIL"@ =~= seq!['E', 'M', 'A', 'I', 'L']);
        reveal_strlit("CONVERSATION");
        assert("CONVERSATION"@ =~= seq!['C', 'O', 'N', 'V', 'E', 'R', 'S', 'A', 'T', 'I', 'O', 'N']);
        reveal_strlit("WEBPAGE");
        assert("WEBPAGE"@ =~= seq!['W', 'E', 'B', 'P', 'A', 'G', 'E']);
        reveal_strlit("PROFILE");
        assert("PROFILE"@ =~= seq!['P', 'R', 'O', 'F', 'I', 'L', 'E']);
        reveal_strlit("INFERENCE");
        assert("INFERENCE"@ =~= seq!['I', 'N', 'F', 'E', 'R', 'E', 'N', 'C', 'E']);
        reveal_strlit("USER_STATEMENT");
        assert("USER_STATEMENT"@ =~= seq!['U', 'S', 'E', 'R', '_', 'S', 'T', 'A', 'T', 'E', 'M', 'E', 'N', 'T']);
    }
    Err(unknown_value("source_type", s))
}

/// Writing a `SourceType` and reading it back gives it back.
pub proof fn lemma_source_type_roundtrip(v: SourceType)
    ensures
        parse_source_type(source_type_code(v)) == Some(v),
{
}

/// Text that reads back as a `SourceType` is exactly the text it is written as.
pub proof fn lemma_source_type_read_write(s: Seq<char>)
    ensures
        parse_source_type(s) matches Some(v) ==> source_type_code(v) == s,
{
}

/// The stored text of each `Sensitivity`.
pub open spec fn sensitivity_code(v: Sensitivity) -> Seq<char> {
    match v {
        Sensitivity::Public => seq!['P', 'U', 'B', 'L', 'I', 'C'],
        Sensitivity::Private => seq!['P', 'R', 'I', 'V', 'A', 'T', 'E'],
        Sensitivity::Sensitive => seq!['S', 'E', 'N', 'S', 'I', 'T', 'I', 'V', 'E'],
    }
}

/// The `Sensitivity` whose stored text is `s`, if any.
pub open spec fn parse_sensitivity(s: Seq<char>) -> Option<Sensitivity> {
    if s == seq!['P', 'U', 'B', 'L', 'I', 'C'] {
        Some(Sensitivity::Public)
    }     else if s == seq!['P', 'R', 'I', 'V', 'A', 'T', 'E'] {
        Some(Sensitivity::Private)
    }     else if s == seq!['S', 'E', 'N', 'S', 'I', 'T', 'I', 'V', 'E'] {
        Some(Sensitivity::Sensitive)
    } else {
        None
    }
}

/// The text `Sensitivity` is stored as.
pub fn sensitivity_to_str(v: Sensitivity) -> (s: &'static str)
    ensures
        s@ == sensitivity_code(v),
{
    match v {
        Sensitivity::Public => {
            proof {
                reveal_strlit("PUBLIC");
                assert("PUBLIC"@ =~= seq!['P', 'U', 'B', 'L', 'I', 'C']);
            }
            "PUBLIC"
        },
        Sensitivity::Private => {
            proof {
                reveal_strlit("PRIVATE");
                assert("PRIVATE"@ =~= seq!['P', 'R', 'I', 'V', 'A', 'T', 'E']);
            }
            "PRIVATE"
        },
        Sensitivity::Sensitive => {
            proof {
                reveal_strlit("SENSITIVE");
                assert("SENSITIVE"@ =~= seq!['S', 'E', 'N', 'S', 'I', 'T', 'I', 'V', 'E']);
            }
            "SENSITIVE"
        },
    }
}

/// Reads back a stored `Sensitivity`; any other text is a decode error.
pub fn str_to_sensitivity(s: &str) -> (r: Result<Sensitivity, StorageError>)
    ensures
        parse_sensitivity(s@) matches Some(v) ==> r == Ok::<Sensitivity, StorageError>(v),
        parse_sensitivity(s@) is None ==> (r matches Err(StorageError::Decode(m)) && m@ == unknown_message("sensitivity"@, s@)),
{
    let v = chars_of(s);
    if eq_lit(&v, "PUBLIC") {
        proof {
            reveal_strlit("PUBLIC");
            assert(v@ =~= seq!['P', 'U', 'B', 'L', 'I', 'C']);
        }
        return Ok(Sensitivity::Public);
    }
    if eq_lit(&v, "PRIVATE") {
        proof {
            reveal_strlit("PRIVATE");
            assert(v@ =~= seq!['P', 'R', 'I', 'V', 'A', 'T', 'E']);
        }
        return Ok(Sensitivity::Private);
    }
    if eq_lit(&v, "SENSITIVE") {
        proof {
            reveal_strlit("SENSITIVE");
            assert(v@ =~= seq!['S', 'E', 'N', 'S', 'I', 'T', 'I', 'V', 'E']);
        }
        return Ok(Sensitivity::Sensitive);
    }
    proof {
        reveal_strlit("PUBLIC");
        assert("PUBLIC"@ =~= seq!['P', 'U', 'B', 'L', 'I', 'C']);
        reveal_strlit("PRIVATE");
        assert("PRIVATE"@ =~= seq!['P', 'R', 'I', 'V', 'A', 'T', 'E']);
        reveal_strlit("SENSITIVE");
        assert("SENSITIVE"@ =~= seq!['S', 'E', 'N', 'S', 'I', 'T', 'I', 'V', 'E']);
    }
    Err(unknown_value("sensitivity", s))
}

/// Writing a `Sensitivity` and reading it back gives it back.
pub proof fn lemma_sensitivity_roundtrip(v: Sensitivity)
    ensures
        parse_sensitivity(sensitivity_code(v)) == Some(v),
{
}

/// Text that reads back as a `Sensitivity` is exactly the text it is written as.
pub proof fn lemma_sensitivity_read_write(s: Seq<char>)
    ensures
        parse_sensitivity(s) matches Some(v) ==> sensitivity_code(v) == s,
{
}

/// The stored text of each `MessageRole`.
pub open spec fn role_code(v: MessageRole) -> Seq<char> {
    match v {
        MessageRole::System => seq!['s', 'y', 's', 't', 'e', 'm'],
        MessageRole::User => seq!['u', 's', 'e', 'r'],
        MessageRole::Assistant => seq!['a', 's', 's', 'i', 's', 't', 'a', 'n', 't'],
        MessageRole::Tool => seq!['t', 'o', 'o', 'l'],
    }
}

/// The `MessageRole` whose stored text is `s`, if any.
pub open spec fn parse_role(s: Seq<char>) -> Option<MessageRole> {
    if s == seq!['s', 'y', 's', 't', 'e', 'm'] {
        Some(MessageRole::System)
    }     else if s == seq!['u', 's', 'e', 'r'] {
        Some(MessageRole::User)
    }     else if s == seq!['a', 's', 's', 'i', 's', 't', 'a', 'n', 't'] {
        Some(MessageRole::Assistant)
    }     else if s == seq!['t', 'o', 'o', 'l'] {
        Some(MessageRole::Tool)
    } else {
        None
    }
}

/// The text `MessageRole` is stored as.
pub fn role_to_str(v: MessageRole) -> (s: &'static str)
    ensures
        s@ == role_code(v),
{
    match v {
        MessageRole::System => {
            proof {
                reveal_strlit("system");
                assert("system"@ =~= seq!['s', 'y', 's', 't', 'e', 'm']);
            }
            "system"
        },
        MessageRole::User => {
            proof {
                reveal_strlit("user");
                assert("user"@ =~= seq!['u', 's', 'e', 'r']);
            }
            "user"
        },
        MessageRole::Assistant => {
            proof {
                reveal_strlit("assistant");
                assert("assistant"@ =~= seq!['a', 's', 's', 'i', 's', 't', 'a', 'n', 't']);
            }
            "assistant"
        },
        MessageRole::Tool => {
            proof {
                reveal_strlit("tool");
                assert("tool"@ =~= seq!['t', 'o', 'o', 'l']);
            }
            "tool"
        },
    }
}

/// Reads back a stored `MessageRole`; any other text is a decode error.
pub fn str_to_role(s: &str) -> (r: Result<MessageRole, StorageError>)
    ensures
        parse_role(s@) matches Some(v) ==> r == Ok::<MessageRole, StorageError>(v),
        parse_role(s@) is None ==> (r matches Err(StorageError::Decode(m)) && m@ == unknown_message("role"@, s@)),
{
    let v = chars_of(s);
    if eq_lit(&v, "system") {
        proof {
            reveal_strlit("system");
            assert(v@ =~= seq!['s', 'y', 's', 't', 'e', 'm']);
        }
        return Ok(MessageRole::System);
    }
    if eq_lit(&v, "user") {
        proof {
            reveal_strlit("user");
            assert(v@ =~= seq!['u', 's', 'e', 'r']);
        }
        return Ok(MessageRole::User);
    }
    if eq_lit(&v, "assistant") {
        proof {
            reveal_strlit("assistant");
            assert(v@ =~= seq!['a', 's', 's', 'i', 's', 't', 'a', 'n', 't']);
        }
        return Ok(MessageRole::Assistant);
    }
    if eq_lit(&v, "tool") {
        proof {
            reveal_strlit("tool");
            assert(v@ =~= seq!['t', 'o', 'o', 'l']);
        }
        return Ok(MessageRole::Tool);
    }
    proof {
        reveal_strlit("system");
        assert("system"@ =~= seq!['s', 'y', 's', 't', 'e', 'm']);
        reveal_strlit("user");
        assert("user"@ =~= seq!['u', 's', 'e', 'r']);
        reveal_strlit("assistant");
        assert("assistant"@ =~= seq!['a', 's', 's', 'i', 's', 't', 'a', 'n', 't']);
        reveal_strlit("tool");
        assert("tool"@ =~= seq!['t', 'o', 'o', 'l']);
    }
    Err(unknown_value("role", s))
}

/// Writing a `MessageRole` and reading it back gives it back.
pub proof fn lemma_role_roundtrip(v: MessageRole)
    ensures
        parse_role(role_code(v)) == Some(v),
{
}

/// Text that reads back as a `MessageRole` is exactly the text it is written as.
pub proof fn lemma_role_read_write(s: Seq<char>)
    ensures
        parse_role(s) matches Some(v) ==> role_code(v) == s,
{
}

/// The stored text of each `MemoryType`.
pub open spec fn memory_type_code(v: MemoryType) -> Seq<char> {
    match v {
        MemoryType::Fact => seq!['F', 'A', 'C', 'T'],
        MemoryType::Preference => seq!['P', 'R', 'E', 'F', 'E', 'R', 'E', 'N', 'C', 'E'],
        MemoryType::Interest => seq!['I', 'N', 'T', 'E', 'R', 'E', 'S', 'T'],
        MemoryType::Goal => seq!['G', 'O', 'A', 'L'],
        MemoryType::Project => seq!['P', 'R', 'O', 'J', 'E', 'C', 'T'],
        MemoryType::Person => seq!['P', 'E', 'R', 'S', 'O', 'N'],
        MemoryType::Location => seq!['L', 'O', 'C', 'A', 'T', 'I', 'O', 'N'],
        MemoryType::Routine => seq!['R', 'O', 'U', 'T', 'I', 'N', 'E'],
        MemoryType::Decision => seq!['D', 'E', 'C', 'I', 'S', 'I', 'O', 'N'],
        MemoryType::Event => seq!['E', 'V', 'E', 'N', 'T'],
        MemoryType::Temporary => seq!['T', 'E', 'M', 'P', 'O', 'R', 'A', 'R', 'Y'],
    }
}

/// The `MemoryType` whose stored text is `s`, if any.
pub open spec fn parse_memory_type(s: Seq<char>) -> Option<MemoryType> {
    if s == seq!['F', 'A', 'C', 'T'] {
        Some(MemoryType::Fact)
    }     else if s == seq!['P', 'R', 'E', 'F', 'E', 'R', 'E', 'N', 'C', 'E'] {
        Some(MemoryType::Preference)
    }     else if s == seq!['I', 'N', 'T', 'E', 'R', 'E', 'S', 'T'] {
        Some(MemoryType::Interest)
    }     else if s == seq!['G', 'O', 'A', 'L'] {
        Some(MemoryType::Goal)
    }     else if s == seq!['P', 'R', 'O', 'J', 'E', 'C', 'T'] {
        Some(MemoryType::Project)
    }     else if s == seq!['P', 'E', 'R', 'S', 'O', 'N'] {
        Some(MemoryType::Person)
    }     else if s == seq!['L', 'O', 'C', 'A', 'T', 'I', 'O', 'N'] {
        Some(MemoryType::Location)
    }     else if s == seq!['R', 'O', 'U', 'T', 'I', 'N', 'E'] {
        Some(MemoryType::Routine)
    }     else if s == seq!['D', 'E', 'C', 'I', 'S', 'I', 'O', 'N'] {
        Some(MemoryType::Decision)
    }     else if s == seq!['E', 'V', 'E', 'N', 'T'] {
        Some(MemoryType::Event)
    }     else if s == seq!['T', 'E', 'M', 'P', 'O', 'R', 'A', 'R', 'Y'] {
        Some(MemoryType::Temporary)
    } else {
        None
    }
}

/// The text `MemoryType` is stored as.
pub fn memory_type_to_str(v: MemoryType) -> (s: &'static str)
    ensures
        s@ == memory_type_code(v),
{
    match v {
        MemoryType::Fact => {
            proof {
                reveal_strlit("FACT");
                assert("FACT"@ =~= seq!['F', 'A', 'C', 'T']);
            }
            "FACT"
        },
        MemoryType::Preference => {
            proof {
                reveal_strlit("PREFERENCE");
                assert("PREFERENCE"@ =~= seq!['P', 'R', 'E', 'F', 'E', 'R', 'E', 'N', 'C', 'E']);
            }
            "PREFERENCE"
        },
        MemoryType::Interest => {
            proof {
                reveal_strlit("INTEREST");
                assert("INTEREST"@ =~= seq!['I', 'N', 'T', 'E', 'R', 'E', 'S', 'T']);
            }
            "INTEREST"
        },
        MemoryType::Goal => {
            proof {
                reveal_strlit("GOAL");
                assert("GOAL"@ =~= seq!['G', 'O', 'A', 'L']);
            }
            "GOAL"
        },
        MemoryType::Project => {
            proof {
                reveal_strlit("PROJECT");
                assert("PROJECT"@ =~= seq!['P', 'R', 'O', 'J', 'E', 'C', 'T']);
            }
            "PROJECT"
        },
        MemoryType::Person => {
            proof {
                reveal_strlit("PERSON");
                assert("PERSON"@ =~= seq!['P', 'E', 'R', 'S', 'O', 'N']);
            }
            "PERSON"
        },
        MemoryType::Location => {
            proof {
                reveal_strlit("LOCATION");
                assert("LOCATION"@ =~= seq!['L', 'O', 'C', 'A', 'T', 'I', 'O', 'N']);
            }
            "LOCATION"
        },
        MemoryType::Routine => {
            proof {
                reveal_strlit("ROUTINE");
                assert("ROUTINE"@ =~= seq!['R', 'O', 'U', 'T', 'I', 'N', 'E']);
            }
            "ROUTINE"
        },
        MemoryType::Decision => {
            proof {
                reveal_strlit("DECISION");
                assert("DECISION"@ =~= seq!['D', 'E', 'C', 'I', 'S', 'I', 'O', 'N']);
            }
            "DECISION"
        },
        MemoryType::Event => {
            proof {
                reveal_strlit("EVENT");
                assert("EVENT"@ =~= seq!['E', 'V', 'E', 'N', 'T']);
            }
            "EVENT"
        },
        MemoryType::Temporary => {
            proof {
                reveal_strlit("TEMPORARY");
                assert("TEMPORARY"@ =~= seq!['T', 'E', 'M', 'P', 'O', 'R', 'A', 'R', 'Y']);
            }
            "TEMPORARY"
        },
    }
}

/// Reads back a stored `MemoryType`; any other text is a decode error.
pub fn str_to_memory_type(s: &str) -> (r: Result<MemoryType, StorageError>)
    ensures
        parse_memory_type(s@) matches Some(v) ==> r == Ok::<MemoryType, StorageError>(v),
        parse_memory_type(s@) is None ==> (r matches Err(StorageError::Decode(m)) && m@ == unknown_message("memory_type"@, s@)),
{
    let v = chars_of(s);
    if eq_lit(&v, "FACT") {
        proof {
            reveal_strlit("FACT");
            assert(v@ =~= seq!['F', 'A', 'C', 'T']);
        }
        return Ok(MemoryType::Fact);
    }
    if eq_lit(&v, "PREFERENCE") {
        proof {
            reveal_strlit("PREFERENCE");
            assert(v@ =~= seq!['P', 'R', 'E', 'F', 'E', 'R', 'E', 'N', 'C', 'E']);
        }
        return Ok(MemoryType::Preference);
    }
    if eq_lit(&v, "INTEREST") {
        proof {
            reveal_strlit("INTEREST");
            assert(v@ =~= seq!['I', 'N', 'T', 'E', 'R', 'E', 'S', 'T']);
        }
        return Ok(MemoryType::Interest);
    }
    if eq_lit(&v, "GOAL") {
        proof {
            reveal_strlit("GOAL");
            assert(v@ =~= seq!['G', 'O', 'A', 'L']);
        }
        return Ok(MemoryType::Goal);
    }
    if eq_lit(&v, "PROJECT") {
        proof {
            reveal_strlit("PROJECT");
            assert(v@ =~= seq!['P', 'R', 'O', 'J', 'E', 'C', 'T']);
        }
        return Ok(MemoryType::Project);
    }
    if eq_lit(&v, "PERSON") {
        proof {
            reveal_strlit("PERSON");
            assert(v@ =~= seq!['P', 'E', 'R', 'S', 'O', 'N']);
        }
        return Ok(MemoryType::Person);
    }
    if eq_lit(&v, "LOCATION") {
        proof {
            reveal_strlit("LOCATION");
            assert(v@ =~= seq!['L', 'O', 'C', 'A', 'T', 'I', 'O', 'N']);
        }
        return Ok(MemoryType::Location);
    }
    if eq_lit(&v, "ROUTINE") {
        proof {
            reveal_strlit("ROUTINE");
            assert(v@ =~= seq!['R', 'O', 'U', 'T', 'I', 'N', 'E']);
        }
        return Ok(MemoryType::Routine);
    }
    if eq_lit(&v, "DECISION") {
        proof {
            reveal_strlit("DECISION");
            assert(v@ =~= seq!['D', 'E', 'C', 'I', 'S', 'I', 'O', 'N']);
        }
        return Ok(MemoryType::Decision);
    }
    if eq_lit(&v, "EVENT") {
        proof {
            reveal_strlit("EVENT");
            assert(v@ =~= seq!['E', 'V', 'E', 'N', 'T']);
        }
        return Ok(MemoryType::Event);
    }
    if eq_lit(&v, "TEMPORARY") {
        proof {
            reveal_strlit("TEMPORARY");
            assert(v@ =~= seq!['T', 'E', 'M', 'P', 'O', 'R', 'A', 'R', 'Y']);
        }
        return Ok(MemoryType::Temporary);
    }
    proof {
        reveal_strlit("FACT");
        assert("FACT"@ =~= seq!['F', 'A', 'C', 'T']);
        reveal_strlit("PREFERENCE");
        assert("PREFERENCE"@ =~= seq!['P', 'R', 'E', 'F', 'E', 'R', 'E', 'N', 'C', 'E']);
        reveal_strlit("INTEREST");
        assert("INTEREST"@ =~= seq!['I', 'N', 'T', 'E', 'R', 'E', 'S', 'T']);
        reveal_strlit("GOAL");
        assert("GOAL"@ =~= seq!['G', 'O', 'A', 'L']);
        reveal_strlit("PROJECT");
        assert("PROJECT"@ =~= seq!['P', 'R', 'O', 'J', 'E', 'C', 'T']);
        reveal_strlit("PERSON");
        assert("PERSON"@ =~= seq!['P', 'E', 'R', 'S', 'O', 'N']);
        reveal_strlit("LOCATION");
        assert("LOCATION"@ =~= seq!['L', 'O', 'C', 'A', 'T', 'I', 'O', 'N']);
        reveal_strlit("ROUTINE");
        assert("ROUTINE"@ =~= seq!['R', 'O', 'U', 'T', 'I', 'N', 'E']);
        reveal_strlit("DECISION");
        assert("DECISION"@ =~= seq!['D', 'E', 'C', 'I', 'S', 'I', 'O', 'N']);
        reveal_strlit("EVENT");
        assert("EVENT"@ =~= seq!['E', 'V', 'E', 'N', 'T']);
        reveal_strlit("TEMPORARY");
        assert("TEMPORARY"@ =~= seq!['T', 'E', 'M', 'P', 'O', 'R', 'A', 'R', 'Y']);
    }
    Err(unknown_value("memory_type", s))
}

/// Writing a `MemoryType` and reading it back gives it back.
pub proof fn lemma_memory_type_roundtrip(v: MemoryType)
    ensures
        parse_memory_type(memory_type_code(v)) == Some(v),
{
}

/// Text that reads back as a `MemoryType` is exactly the text it is written as.
pub proof fn lemma_memory_type_read_write(s: Seq<char>)
    ensures
        parse_memory_type(s) matches Some(v) ==> memory_type_code(v) == s,
{
}

/// The stored text of each `MemoryStatus`.
pub open spec fn memory_status_code(v: MemoryStatus) -> Seq<char> {
    match v {
        MemoryStatus::Candidate => seq!['C', 'A', 'N', 'D', 'I', 'D', 'A', 'T', 'E'],
        MemoryStatus::Active => seq!['A', 'C', 'T', 'I', 'V', 'E'],
        MemoryStatus::Temporary => seq!['T', 'E', 'M', 'P', 'O', 'R', 'A', 'R', 'Y'],
        MemoryStatus::Superseded => seq!['S', 'U', 'P', 'E', 'R', 'S', 'E', 'D', 'E', 'D'],
        MemoryStatus::Archived => seq!['A', 'R', 'C', 'H', 'I', 'V', 'E', 'D'],
        MemoryStatus::Expired => seq!['E', 'X', 'P', 'I', 'R', 'E', 'D'],
    }
}

/// The `MemoryStatus` whose stored text is `s`, if any.
pub open spec fn parse_memory_status(s: Seq<char>) -> Option<MemoryStatus> {
    if s == seq!['C', 'A', 'N', 'D', 'I', 'D', 'A', 'T', 'E'] {
        Some(MemoryStatus::Candidate)
    }     else if s == seq!['A', 'C', 'T', 'I', 'V', 'E'] {
        Some(MemoryStatus::Active)
    }     else if s == seq!['T', 'E', 'M', 'P', 'O', 'R', 'A', 'R', 'Y'] {
        Some(MemoryStatus::Temporary)
    }     else if s == seq!['S', 'U', 'P', 'E', 'R', 'S', 'E', 'D', 'E', 'D'] {
        Some(MemoryStatus::Superseded)
    }     else if s == seq!['A', 'R', 'C', 'H', 'I', 'V', 'E', 'D'] {
        Some(MemoryStatus::Archived)
    }     else if s == seq!['E', 'X', 'P', 'I', 'R', 'E', 'D'] {
        Some(MemoryStatus::Expired)
    } else {
        None
    }
}

/// The text `MemoryStatus` is stored as.
pub fn memory_status_to_str(v: MemoryStatus) -> (s: &'static str)
    ensures
        s@ == memory_status_code(v),
{
    match v {
        MemoryStatus::Candidate => {
            proof {
                reveal_strlit("CANDIDATE");
                assert("CANDIDATE"@ =~= seq!['C', 'A', 'N', 'D', 'I', 'D', 'A', 'T', 'E']);
            }
            "CANDIDATE"
        },
        MemoryStatus::Active => {
            proof {
                reveal_strlit("ACTIVE");
                assert("ACTIVE"@ =~= seq!['A', 'C', 'T', 'I', 'V', 'E']);
            }
            "ACTIVE"
        },
        MemoryStatus::Temporary => {
            proof {
                reveal_strlit("TEMPORARY");
                assert("TEMPORARY"@ =~= seq!['T', 'E', 'M', 'P', 'O', 'R', 'A', 'R', 'Y']);
            }
            "TEMPORARY"
        },
        MemoryStatus::Superseded => {
            proof {
                reveal_strlit("SUPERSEDED");
                assert("SUPERSEDED"@ =~= seq!['S', 'U', 'P', 'E', 'R', 'S', 'E', 'D', 'E', 'D']);
            }
            "SUPERSEDED"
        },
        MemoryStatus::Archived => {
            proof {
                reveal_strlit("ARCHIVED");
                assert("ARCHIVED"@ =~= seq!['A', 'R', 'C', 'H', 'I', 'V', 'E', 'D']);
            }
            "ARCHIVED"
        },
        MemoryStatus::Expired => {
            proof {
                reveal_strlit("EXPIRED");
                assert("EXPIRED"@ =~= seq!['E', 'X', 'P', 'I', 'R', 'E', 'D']);
            }
            "EXPIRED"
        },
    }
}

/// Reads back a stored `MemoryStatus`; any other text is a decode error.
pub fn str_to_memory_status(s: &str) -> (r: Result<MemoryStatus, StorageError>)
    ensures
        parse_memory_status(s@) matches Some(v) ==> r == Ok::<MemoryStatus, StorageError>(v),
        parse_memory_status(s@) is None ==> (r matches Err(StorageError::Decode(m)) && m@ == unknown_message("memory_status"@, s@)),
{
    let v = chars_of(s);
    if eq_lit(&v, "CANDIDATE") {
        proof {
            reveal_strlit("CANDIDATE");
            assert(v@ =~= seq!['C', 'A', 'N', 'D', 'I', 'D', 'A', 'T', 'E']);
        }
        return Ok(MemoryStatus::Candidate);
    }
    if eq_lit(&v, "ACTIVE") {
        proof {
            reveal_strlit("ACTIVE");
            assert(v@ =~= seq!['A', 'C', 'T', 'I', 'V', 'E']);
        }
        return Ok(MemoryStatus::Active);
    }
    if eq_lit(&v, "TEMPORARY") {
        proof {
            reveal_strlit("TEMPORARY");
            assert(v@ =~= seq!['T', 'E', 'M', 'P', 'O', 'R', 'A', 'R', 'Y']);
        }
        return Ok(MemoryStatus::Temporary);
    }
    if eq_lit(&v, "SUPERSEDED") {
        proof {
            reveal_strlit("SUPERSEDED");
            assert(v@ =~= seq!['S', 'U', 'P', 'E', 'R', 'S', 'E', 'D', 'E', 'D']);
        }
        return Ok(MemoryStatus::Superseded);
    }
    if eq_lit(&v, "ARCHIVED") {
        proof {
            reveal_strlit("ARCHIVED");
            assert(v@ =~= seq!['A', 'R', 'C', 'H', 'I', 'V', 'E', 'D']);
        }
        return Ok(MemoryStatus::Archived);
    }
    if eq_lit(&v, "EXPIRED") {
        proof {
            reveal_strlit("EXPIRED");
            assert(v@ =~= seq!['E', 'X', 'P', 'I', 'R', 'E', 'D']);
        }
        return Ok(MemoryStatus::Expired);
    }
    proof {
        reveal_strlit("CANDIDATE");
        assert("CANDIDATE"@ =~= seq!['C', 'A', 'N', 'D', 'I', 'D', 'A', 'T', 'E']);
        reveal_strlit("ACTIVE");
        assert("ACTIVE"@ =~= seq!['A', 'C', 'T', 'I', 'V', 'E']);
        reveal_strlit("TEMPORARY");
        assert("TEMPORARY"@ =~= seq!['T', 'E', 'M', 'P', 'O', 'R', 'A', 'R', 'Y']);
        reveal_strlit("SUPERSEDED");
        assert("SUPERSEDED"@ =~= seq!['S', 'U', 'P', 'E', 'R', 'S', 'E', 'D', 'E', 'D']);
        reveal_strlit("ARCHIVED");
        assert("ARCHIVED"@ =~= seq!['A', 'R', 'C', 'H', 'I', 'V', 'E', 'D']);
        reveal_strlit("EXPIRED");
        assert("EXPIRED"@ =~= seq!['E', 'X', 'P', 'I', 'R', 'E', 'D']);
    }
    Err(unknown_value("memory_status", s))
}

/// Writing a `MemoryStatus` and reading it back gives it back.
pub proof fn lemma_memory_status_roundtrip(v: MemoryStatus)
    ensures
        parse_memory_status(memory_status_code(v)) == Some(v),
{
}

/// Text that reads back as a `MemoryStatus` is exactly the text it is written as.
pub proof fn lemma_memory_status_read_write(s: Seq<char>)
    ensures
        parse_memory_status(s) matches Some(v) ==> memory_status_code(v) == s,
{
}

} // verus!
