use mnemo::models::{status_label, type_label, MemoryStatus, MemoryType, MessageRole, Sensitivity, SourceType};
use mnemo::storage::{
    memory_status_to_str, memory_type_to_str, role_to_str, sensitivity_to_str, source_type_to_str,
    str_to_memory_status, str_to_memory_type, str_to_role, str_to_sensitivity, str_to_source_type, StorageError,
};

#[test]
fn source_types_round_trip() {
    for t in [
        SourceType::File,
        SourceType::Email,
        SourceType::Conversation,
        SourceType::Webpage,
        SourceType::Profile,
        SourceType::Inference,
        SourceType::UserStatement,
    ] {
        assert_eq!(str_to_source_type(source_type_to_str(t)).unwrap(), t);
    }
    assert_eq!(source_type_to_str(SourceType::UserStatement), "USER_STATEMENT");
}

#[test]
fn unknown_stored_text_is_a_decode_error() {
    match str_to_source_type("file") {
        Err(StorageError::Decode(m)) => assert_eq!(m, "unknown source_type 'file'"),
        other => panic!("unexpected: {other:?}"),
    }
    match str_to_role("robot") {
        Err(StorageError::Decode(m)) => assert_eq!(m, "unknown role 'robot'"),
        other => panic!("unexpected: {other:?}"),
    }
    assert!(matches!(str_to_sensitivity(""), Err(StorageError::Decode(_))));
    assert!(matches!(str_to_memory_type("fact"), Err(StorageError::Decode(_))));
    assert!(matches!(str_to_memory_status("gone"), Err(StorageError::Decode(_))));
}

#[test]
fn sensitivities_and_roles_round_trip() {
    for s in [Sensitivity::Public, Sensitivity::Private, Sensitivity::Sensitive] {
        assert_eq!(str_to_sensitivity(sensitivity_to_str(s)).unwrap(), s);
    }
    for r in [MessageRole::System, MessageRole::User, MessageRole::Assistant, MessageRole::Tool] {
        assert_eq!(str_to_role(role_to_str(r)).unwrap(), r);
    }
    assert_eq!(role_to_str(MessageRole::Assistant), "assistant");
    assert_eq!(Sensitivity::default(), Sensitivity::Private);
}

#[test]
fn memory_types_and_statuses_round_trip() {
    for t in [
        MemoryType::Fact,
        MemoryType::Preference,
        MemoryType::Interest,
        MemoryType::Goal,
        MemoryType::Project,
        MemoryType::Person,
        MemoryType::Location,
        MemoryType::Routine,
        MemoryType::Decision,
        MemoryType::Event,
        MemoryType::Temporary,
    ] {
        assert_eq!(str_to_memory_type(memory_type_to_str(t)).unwrap(), t);
    }
    for s in [
        MemoryStatus::Candidate,
        MemoryStatus::Active,
        MemoryStatus::Temporary,
        MemoryStatus::Superseded,
        MemoryStatus::Archived,
        MemoryStatus::Expired,
    ] {
        assert_eq!(str_to_memory_status(memory_status_to_str(s)).unwrap(), s);
    }
}

#[test]
fn memory_labels_are_lowercase_names() {
    assert_eq!(type_label(MemoryType::Preference), "preference");
    assert_eq!(type_label(MemoryType::Temporary), "temporary");
    assert_eq!(status_label(MemoryStatus::Superseded), "superseded");
    assert_eq!(status_label(MemoryStatus::Candidate), "candidate");
}
