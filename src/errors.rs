//! The error taxonomy: validation, storage and publish failures, and the one
//! mapping from a failure to what the caller sees.
use vstd::prelude::*;
use vstd::string::StringExecFns;

verus! {

/// Why a stored record does not decode into an item.
#[derive(Debug)]
pub enum DynamoDBError {
    MissingAttribute { attribute: String },
    InvalidAttribute { attribute: String },
}

pub enum DecodeFailure {
    MissingAttribute(Seq<char>),
    InvalidAttribute(Seq<char>),
}

impl View for DynamoDBError {
    type V = DecodeFailure;

    open spec fn view(&self) -> DecodeFailure {
        match self {
            DynamoDBError::MissingAttribute { attribute } => DecodeFailure::MissingAttribute(attribute@),
            DynamoDBError::InvalidAttribute { attribute } => DecodeFailure::InvalidAttribute(attribute@),
        }
    }
}

/// A failure reported by the store adapter.
#[derive(Clone, Debug)]
pub struct StoreFailure {
    pub message: String,
}

/// Input that a handler rejects before touching the store.
#[derive(Clone, Copy, Debug, PartialEq, Eq, Structural)]
pub enum ValidationError {
    MissingListId,
    MissingItemId,
    InvalidBody,
}

/// The store failed, or held something other than what was expected.
#[derive(Debug)]
pub enum StorageError {
    WriteFailed,
    DeleteFailed,
    QueryFailed,
    /// A delete found no item under the key it was given.
    InconsistentState,
    /// A record read back does not decode into an item.
    MalformedRecord(DynamoDBError),
}

/// Every failure a handler can meet.
#[derive(Debug)]
pub enum TodoError {
    Validation(ValidationError),
    Storage(StorageError),
    /// Announcing an event failed; callers log it and go on.
    Publish(String),
}

/// What the caller of a failed request receives.
#[derive(Debug)]
pub struct FailureResponse {
    pub status_code: u16,
    pub body: String,
}

pub const BAD_REQUEST: u16 = 400;

pub const INTERNAL_SERVER_ERROR: u16 = 500;

pub open spec fn spec_status_code(e: TodoError) -> u16 {
    match e {
        TodoError::Validation(_) => BAD_REQUEST,
        _ => INTERNAL_SERVER_ERROR,
    }
}

pub open spec fn spec_message(e: TodoError) -> Seq<char> {
    match e {
        TodoError::Validation(ValidationError::MissingListId) => "Missing list id"@,
        TodoError::Validation(_) => "Invalid request"@,
        TodoError::Storage(StorageError::WriteFailed) => "Unable to set todo"@,
        TodoError::Storage(StorageError::DeleteFailed) => "Unable to delete todo"@,
        TodoError::Storage(StorageError::QueryFailed) => "Unable to query todos"@,
        TodoError::Storage(_) => "Unable to deserialize todo"@,
        TodoError::Publish(_) => "Unable to send confirmation event"@,
    }
}

impl TodoError {
    /// The status a caller sees: its own fault, or the service's.
    pub fn status_code(&self) -> (r: u16)
        ensures
            r == spec_status_code(*self),
    {
        match self {
            TodoError::Validation(_) => BAD_REQUEST,
            _ => INTERNAL_SERVER_ERROR,
        }
    }

    /// The message a caller sees.
    pub fn message(&self) -> (r: String)
        ensures
            r@ == spec_message(*self),
    {
        match self {
            TodoError::Validation(ValidationError::MissingListId) => String::from_str("Missing list id"),
            TodoError::Validation(_) => String::from_str("Invalid request"),
            TodoError::Storage(StorageError::WriteFailed) => String::from_str("Unable to set todo"),
            TodoError::Storage(StorageError::DeleteFailed) => String::from_str("Unable to delete todo"),
            TodoError::Storage(StorageError::QueryFailed) => String::from_str("Unable to query todos"),
            TodoError::Storage(_) => String::from_str("Unable to deserialize todo"),
            TodoError::Publish(_) => String::from_str("Unable to send confirmation event"),
        }
    }

    /// The one mapping from a failure to the response a caller receives.
    pub fn to_failure(&self) -> (r: FailureResponse)
        ensures
            r.status_code == spec_status_code(*self),
            r.body@ == spec_message(*self),
    {
        FailureResponse { status_code: self.status_code(), body: self.message() }
    }
}

} // verus!
