//! The errors that the service answers with: a text and an HTTP status.

use vstd::prelude::*;
use vstd::string::*;
use crate::db::Error;

verus! {

pub const BAD_REQUEST: u16 = 400;

pub const NOT_FOUND: u16 = 404;

pub const CONFLICT: u16 = 409;

pub const UNPROCESSABLE_ENTITY: u16 = 422;

/// An error as the service answers with it.
#[derive(Debug)]
pub struct HTTPError {
    pub detail: String,
    pub status_code: u16,
}

impl HTTPError {
    /// An error with the given text and the status 422.
    pub fn new(detail: &str) -> (r: HTTPError)
        ensures
            r.detail@ == detail@,
            r.status_code == UNPROCESSABLE_ENTITY,
    {
        HTTPError { detail: String::from_str(detail), status_code: UNPROCESSABLE_ENTITY }
    }

    /// The same error with another status.
    pub fn with_status(self, status_code: u16) -> (r: HTTPError)
        ensures
            r.detail == self.detail,
            r.status_code == status_code,
    {
        HTTPError { detail: self.detail, status_code }
    }

    /// The answer where a collection has no embedding of the id asked for.
    pub fn embedding_not_found() -> (r: HTTPError)
        ensures
            r.status_code == NOT_FOUND,
            r.detail@ == "Embedding not found"@,
    {
        HTTPError::new("Embedding not found").with_status(NOT_FOUND)
    }

    /// The answer where a collection is asked for with the dimension zero.
    pub fn invalid_dimension() -> (r: HTTPError)
        ensures
            r.status_code == BAD_REQUEST,
            r.detail@ == "The dimension must be positive"@,
    {
        HTTPError::new("The dimension must be positive").with_status(BAD_REQUEST)
    }

    /// The answer to a failed creation of a collection.
    pub fn on_create_collection(error: Error) -> (r: HTTPError)
        ensures
            error == Error::UniqueViolation ==> r.status_code == CONFLICT && r.detail@
                == "Collection already exists"@,
            error != Error::UniqueViolation ==> r.status_code == UNPROCESSABLE_ENTITY && r.detail@
                == "Couldn't create collection"@,
    {
        match error {
            Error::UniqueViolation => HTTPError::new("Collection already exists").with_status(
                CONFLICT,
            ),
            _ => HTTPError::new("Couldn't create collection"),
        }
    }

    /// The answer to a failed deletion of a collection.
    pub fn on_delete_collection(error: Error) -> (r: HTTPError)
        ensures
            error == Error::NotFound ==> r.status_code == NOT_FOUND && r.detail@
                == "Collection not found"@,
            error != Error::NotFound ==> r.status_code == UNPROCESSABLE_ENTITY && r.detail@
                == "Couldn't delete collection"@,
    {
        match error {
            Error::NotFound => HTTPError::new("Collection not found").with_status(NOT_FOUND),
            _ => HTTPError::new("Couldn't delete collection"),
        }
    }

    /// The answer to a failed insertion of an embedding.
    pub fn on_insert(error: Error) -> (r: HTTPError)
        ensures
            error == Error::NotFound ==> r.status_code == NOT_FOUND && r.detail@
                == "Collection not found"@,
            error == Error::UniqueViolation ==> r.status_code == CONFLICT && r.detail@
                == "Vector already exists"@,
            error == Error::DimensionMismatch ==> r.status_code == BAD_REQUEST && r.detail@
                == "The provided vector has the wrong dimension"@,
            error == Error::PersistenceFailure ==> r.status_code == UNPROCESSABLE_ENTITY && r.detail@
                == "Couldn't insert embedding"@,
    {
        match error {
            Error::NotFound => HTTPError::new("Collection not found").with_status(NOT_FOUND),
            Error::UniqueViolation => HTTPError::new("Vector already exists").with_status(CONFLICT),
            Error::DimensionMismatch => HTTPError::new(
                "The provided vector has the wrong dimension",
            ).with_status(BAD_REQUEST),
            Error::PersistenceFailure => HTTPError::new("Couldn't insert embedding"),
        }
    }

    /// The answer to a query that failed.
    pub fn on_query(error: Error) -> (r: HTTPError)
        ensures
            error == Error::DimensionMismatch ==> r.status_code == BAD_REQUEST && r.detail@
                == "Query dimension mismatch"@,
            error == Error::NotFound ==> r.status_code == NOT_FOUND && r.detail@
                == "Collection not found"@,
            error != Error::DimensionMismatch && error != Error::NotFound ==> r.status_code
                == UNPROCESSABLE_ENTITY && r.detail@ == "Couldn't query collection"@,
    {
        match error {
            Error::DimensionMismatch => HTTPError::new("Query dimension mismatch").with_status(
                BAD_REQUEST,
            ),
            Error::NotFound => HTTPError::new("Collection not found").with_status(NOT_FOUND),
            _ => HTTPError::new("Couldn't query collection"),
        }
    }
}

impl Error {
    /// What the error says.
    pub fn message(&self) -> (r: String)
        ensures
            r@ == match *self {
                Error::UniqueViolation => "Collection already exists"@,
                Error::NotFound => "Collection doesn't exist"@,
                Error::DimensionMismatch => "The dimension of the vector doesn't match the dimension of the collection"@,
                Error::PersistenceFailure => "The store could not be written or read"@,
            },
    {
        match self {
            Error::UniqueViolation => String::from_str("Collection already exists"),
            Error::NotFound => String::from_str("Collection doesn't exist"),
            Error::DimensionMismatch => String::from_str(
                "The dimension of the vector doesn't match the dimension of the collection",
            ),
            Error::PersistenceFailure => String::from_str("The store could not be written or read"),
        }
    }
}

} // verus!
