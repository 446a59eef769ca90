use vstd::prelude::*;

verus! {

/// The engine's error taxonomy.
///
/// State-machine precondition violations (`AlreadyOwnedByOther`, `NotOwner`,
/// `NotClaimed`, `AlreadyCompleted`) and `NotFound` are client errors,
/// surfaced verbatim and never retried. `ResourcePoolExhausted` is the one
/// transient condition; the caller may retry with backoff. `StorageError` is
/// an opaque store failure, and `RecommendationUnavailable` a scorer
/// transport or decoding failure that degrades to an empty recommendation
/// list. The last three arise at the I/O boundary around the engine; they
/// share this taxonomy so that every layer reports errors in one shape.
#[derive(Clone, Copy, Debug, PartialEq, Eq, Structural)]
pub enum EngineError {
    /// A task or user id did not resolve.
    NotFound,
    /// Another user already holds the task.
    AlreadyOwnedByOther,
    /// The caller does not own the task.
    NotOwner,
    /// The task has no owner to release.
    NotClaimed,
    /// A completion fact for the task already exists.
    AlreadyCompleted,
    /// The store's connection pool was saturated.
    ResourcePoolExhausted,
    /// The underlying store failed during a mutation.
    StorageError,
    /// The recommendation scorer could not be reached or decoded.
    RecommendationUnavailable,
}

impl EngineError {
    /// Whether a caller may retry the failed call: only pool exhaustion is
    /// transient; every other error is final for the given input.
    pub fn is_retryable(self) -> (r: bool)
        ensures
            r <==> self is ResourcePoolExhausted,
    {
        match self {
            EngineError::ResourcePoolExhausted => true,
            _ => false,
        }
    }

    pub open spec fn spec_message(self) -> Seq<char> {
        match self {
            EngineError::NotFound => "task or user not found"@,
            EngineError::AlreadyOwnedByOther => "task is already owned by another user"@,
            EngineError::NotOwner => "task is owned by another user"@,
            EngineError::NotClaimed => "task is not claimed"@,
            EngineError::AlreadyCompleted => "task is already completed"@,
            EngineError::ResourcePoolExhausted => "connection pool exhausted"@,
            EngineError::StorageError => "storage failure"@,
            EngineError::RecommendationUnavailable => "recommendation scorer unavailable"@,
        }
    }

    /// A short description of the error.
    pub fn message(self) -> (s: String)
        ensures
            s@ == self.spec_message(),
    {
        match self {
            EngineError::NotFound => "task or user not found".to_owned(),
            EngineError::AlreadyOwnedByOther => "task is already owned by another user".to_owned(),
            EngineError::NotOwner => "task is owned by another user".to_owned(),
            EngineError::NotClaimed => "task is not claimed".to_owned(),
            EngineError::AlreadyCompleted => "task is already completed".to_owned(),
            EngineError::ResourcePoolExhausted => "connection pool exhausted".to_owned(),
            EngineError::StorageError => "storage failure".to_owned(),
            EngineError::RecommendationUnavailable => "recommendation scorer unavailable".to_owned(),
        }
    }
}

} // verus!
