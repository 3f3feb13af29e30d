//! Error types for the record store and the credential utility.

use vstd::prelude::*;

verus! {

/// Errors raised when validating or inserting an employee record.
#[derive(Debug, Clone, PartialEq, Eq)]
pub enum DataStoreError {
    Unknown,
    EmployeeAlreadyExists { first_name: String, last_name: String },
    NoOldEnough { first_name: String, last_name: String },
    NoDiploma { first_name: String, last_name: String },
}

/// Errors raised by store lookups, the file codec, and the session layer.
#[derive(Debug, Clone, Copy, PartialEq, Eq, Structural)]
pub enum StoreError {
    /// No record with the requested identifier or handle.
    NotFound,
    /// A record with the same (first name, last name) pair already exists.
    Conflict,
    /// The record file is not well formed.
    ParseError,
    /// The record file could not be read or written.
    IOError,
    /// A required input was missing or malformed.
    InvalidInput,
    /// The supplied password or admin identity is wrong.
    InvalidCredentials,
    /// The session token is not of the `id:timestamp:suffix` shape.
    InvalidToken,
    /// The session token is well formed but past its expiry window.
    Expired,
}

pub fn employee_already_exists_error(
    first_name: String,
    last_name: String,
) -> (r: Result<(), DataStoreError>)
    ensures
        r == Err::<(), DataStoreError>(
            (DataStoreError::EmployeeAlreadyExists { first_name, last_name }),
        ),
{
    Err(DataStoreError::EmployeeAlreadyExists { first_name, last_name })
}

pub fn employee_not_old_enough_error(
    first_name: String,
    last_name: String,
) -> (r: Result<(), DataStoreError>)
    ensures
        r == Err::<(), DataStoreError>((DataStoreError::NoOldEnough { first_name, last_name })),
{
    Err(DataStoreError::NoOldEnough { first_name, last_name })
}

pub fn employee_no_diploma_error(
    first_name: String,
    last_name: String,
) -> (r: Result<(), DataStoreError>)
    ensures
        r == Err::<(), DataStoreError>((DataStoreError::NoDiploma { first_name, last_name })),
{
    Err(DataStoreError::NoDiploma { first_name, last_name })
}

} // verus!
