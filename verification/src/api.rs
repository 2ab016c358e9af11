//! The request and response bodies of the HTTP interface.

use vstd::prelude::*;

verus! {

/// Body of a request that sets one key.
pub struct SetRequest {
    pub key: String,
    pub value: String,
}

/// Body of a response to a single-key read.
pub struct GetResponse {
    pub key: String,
    pub value: Option<String>,
}

/// Body of a response to a single-key delete.
pub struct DeleteResponse {
    pub key: String,
    pub existed: bool,
}

/// Body of an error response.
pub struct ErrorResponse {
    pub error: String,
}

/// Body of a plain informational response.
pub struct MessageResponse {
    pub message: String,
}

/// Body of a request that sets several keys at once.
pub struct BatchSetRequest {
    pub items: Vec<SetRequest>,
}

/// Body of a request that reads several keys at once.
pub struct BatchGetRequest {
    pub keys: Vec<String>,
}

/// Body of a response to a batched read.
pub struct BatchGetResponse {
    pub items: Vec<GetResponse>,
}

/// An error surfaced over the HTTP interface.
pub enum ApiError {
    StorageError(String),
    NotFound,
}

impl ApiError {
    /// The HTTP status code this error maps to.
    pub fn status_code(&self) -> (r: u16)
        ensures
            r == match self {
                ApiError::StorageError(m) => 500int,
                ApiError::NotFound => 404int,
            },
    {
        match self {
            ApiError::StorageError(_) => 500,
            ApiError::NotFound => 404,
        }
    }
}

} // verus!
