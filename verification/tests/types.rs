use quest_board::class::Class;
use quest_board::error::EngineError;

#[test]
fn class_codes_round_trip() {
    assert_eq!(Class::C.code(), 0);
    assert_eq!(Class::B.code(), 1);
    assert_eq!(Class::A.code(), 2);
    assert_eq!(Class::from_code(0), Class::C);
    assert_eq!(Class::from_code(1), Class::B);
    assert_eq!(Class::from_code(2), Class::A);
    assert_eq!(Class::from_code(-1), Class::C);
    assert_eq!(Class::from_code(7), Class::C);
}

#[test]
fn class_labels() {
    assert_eq!(Class::C.label().as_str(), "C");
    assert_eq!(Class::B.label().as_str(), "B");
    assert_eq!(Class::A.label().as_str(), "A");
    assert_eq!(Class::from_label(&"C".to_string()), Some(Class::C));
    assert_eq!(Class::from_label(&"B".to_string()), Some(Class::B));
    assert_eq!(Class::from_label(&"A".to_string()), Some(Class::A));
    assert_eq!(Class::from_label(&"D".to_string()), None);
    assert_eq!(Class::from_label(&"".to_string()), None);
    assert_eq!(Class::from_label(&"AB".to_string()), None);
}

#[test]
fn only_pool_exhaustion_is_retryable() {
    assert!(EngineError::ResourcePoolExhausted.is_retryable());
    assert!(!EngineError::NotFound.is_retryable());
    assert!(!EngineError::AlreadyOwnedByOther.is_retryable());
    assert!(!EngineError::NotOwner.is_retryable());
    assert!(!EngineError::NotClaimed.is_retryable());
    assert!(!EngineError::AlreadyCompleted.is_retryable());
    assert!(!EngineError::StorageError.is_retryable());
    assert!(!EngineError::RecommendationUnavailable.is_retryable());
}

#[test]
fn error_messages_name_the_condition() {
    assert_eq!(EngineError::NotFound.message().as_str(), "task or user not found");
    assert_eq!(
        EngineError::AlreadyOwnedByOther.message().as_str(),
        "task is already owned by another user"
    );
    assert_eq!(EngineError::NotOwner.message().as_str(), "task is owned by another user");
    assert_eq!(EngineError::NotClaimed.message().as_str(), "task is not claimed");
    assert_eq!(EngineError::AlreadyCompleted.message().as_str(), "task is already completed");
    assert_eq!(
        EngineError::ResourcePoolExhausted.message().as_str(),
        "connection pool exhausted"
    );
    assert_eq!(EngineError::StorageError.message().as_str(), "storage failure");
    assert_eq!(
        EngineError::RecommendationUnavailable.message().as_str(),
        "recommendation scorer unavailable"
    );
}
