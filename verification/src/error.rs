//! The error taxonomy of the storage layer, and its translation to the
//! single generic "storage message" error that the execution layer sees at
//! the contract boundary.

use vstd::prelude::*;
use vstd::string::StringExecFns;

verus! {

/// The contract-boundary error: every storage-specific condition is
/// reported through this one generic kind, so the execution layer needs no
/// backend-specific error knowledge.
#[derive(Clone, Debug, PartialEq, Eq)]
pub enum Error {
    StorageMsg(String),
}

/// Conditions raised by the transactional paged ("pristine") backend.
#[derive(Clone, Copy, Debug, PartialEq, Eq, Structural)]
pub enum SanakirjaError {
    /// The backing store is already exclusively held by a writer.
    PristineLocked,
    /// A mandatory root (the schema index) is absent despite a valid
    /// version marker, or the file is too short to hold its roots.
    PristineCorrupted,
    /// The on-disk version marker differs from the engine's own.
    Version,
    /// Stored bytes do not decode into the expected record shape.
    Serialization,
    /// A schema for this table name already exists; it is never silently
    /// overwritten.
    SchemaExists,
    /// A data operation named a table that has no schema.
    TableDoesNotExist,
    /// The surrogate key space of a table is exhausted.
    KeyOverflow,
}

impl SanakirjaError {
    /// The human-readable description of the condition.
    pub fn message(&self) -> (r: &'static str)
        ensures
            r@ == sanakirja_error_message(*self),
    {
        match self {
            SanakirjaError::PristineLocked => "Pristine locked",
            SanakirjaError::PristineCorrupted => "Pristine corrupted",
            SanakirjaError::Version => "Pristine version mismatch. Cloning over the network can fix this.",
            SanakirjaError::Serialization => "Pristine record deserialization failed",
            SanakirjaError::SchemaExists => "Schema already exists",
            SanakirjaError::TableDoesNotExist => "Table does not exist",
            SanakirjaError::KeyOverflow => "Surrogate keys exhausted",
        }
    }
}

/// The message text attached to each pristine condition.
pub open spec fn sanakirja_error_message(e: SanakirjaError) -> Seq<char> {
    match e {
        SanakirjaError::PristineLocked => "Pristine locked"@,
        SanakirjaError::PristineCorrupted => "Pristine corrupted"@,
        SanakirjaError::Version => "Pristine version mismatch. Cloning over the network can fix this."@,
        SanakirjaError::Serialization => "Pristine record deserialization failed"@,
        SanakirjaError::SchemaExists => "Schema already exists"@,
        SanakirjaError::TableDoesNotExist => "Table does not exist"@,
        SanakirjaError::KeyOverflow => "Surrogate keys exhausted"@,
    }
}

/// Holds exactly when `r` is the generic storage message with text `m`.
pub open spec fn is_storage_msg(r: Error, m: Seq<char>) -> bool {
    &&& r matches Error::StorageMsg(s)
    &&& (r matches Error::StorageMsg(s) ==> s@ == m)
}

impl From<SanakirjaError> for Error {
    fn from(e: SanakirjaError) -> (r: Error)
        ensures
            is_storage_msg(r, sanakirja_error_message(e)),
    {
        Error::StorageMsg(e.message().to_owned())
    }
}

impl vstd::std_specs::convert::FromSpecImpl<SanakirjaError> for Error {
    open spec fn obeys_from_spec() -> bool {
        false
    }

    open spec fn from_spec(e: SanakirjaError) -> Error {
        arbitrary()
    }
}

/// Translates a pristine condition to the generic storage message.
pub fn err_into(e: SanakirjaError) -> (r: Error)
    ensures
        is_storage_msg(r, sanakirja_error_message(e)),
{
    Error::StorageMsg(e.message().to_owned())
}

/// Conditions raised by the key/value-backed adapters.
#[derive(Clone, Debug, PartialEq, Eq)]
pub enum WorkersStorageError {
    BucketNotFound,
    KeyNotFound,
    TableDoesNotExist,
    ColumnDoesNotExist(String),
    TableNameDoesNotMatchWithFile,
    InvalidJsonContent(String),
}

impl WorkersStorageError {
    /// The human-readable description of the condition.
    pub fn message(&self) -> (r: String)
        ensures
            r@ == workers_error_message(*self),
    {
        match self {
            WorkersStorageError::BucketNotFound => "bucket not found".to_owned(),
            WorkersStorageError::KeyNotFound => "key not found".to_owned(),
            WorkersStorageError::TableDoesNotExist => "table does not exist".to_owned(),
            WorkersStorageError::ColumnDoesNotExist(c) => "column does not exist: ".to_owned().concat(c.as_str()),
            WorkersStorageError::TableNameDoesNotMatchWithFile => "table name does not match with file".to_owned(),
            WorkersStorageError::InvalidJsonContent(c) => "invalid log file content: ".to_owned().concat(c.as_str()),
        }
    }
}

/// The message text attached to each adapter condition.
pub open spec fn workers_error_message(e: WorkersStorageError) -> Seq<char> {
    match e {
        WorkersStorageError::BucketNotFound => "bucket not found"@,
        WorkersStorageError::KeyNotFound => "key not found"@,
        WorkersStorageError::TableDoesNotExist => "table does not exist"@,
        WorkersStorageError::ColumnDoesNotExist(c) => "column does not exist: "@ + c@,
        WorkersStorageError::TableNameDoesNotMatchWithFile => "table name does not match with file"@,
        WorkersStorageError::InvalidJsonContent(c) => "invalid log file content: "@ + c@,
    }
}

/// Carries a fallible adapter result to the contract boundary.
pub trait ResultExt<T>: Sized {
    fn map_storage_err(self) -> Result<T, Error>;
}

impl<T> ResultExt<T> for Result<T, WorkersStorageError> {
    fn map_storage_err(self) -> (r: Result<T, Error>)
        ensures
            match self {
                Ok(v) => r matches Ok(w) && w == v,
                Err(e) => r matches Err(err) && is_storage_msg(err, workers_error_message(e)),
            },
    {
        match self {
            Ok(v) => Ok(v),
            Err(e) => Err(Error::StorageMsg(e.message())),
        }
    }
}

impl<T> ResultExt<T> for Result<T, SanakirjaError> {
    fn map_storage_err(self) -> (r: Result<T, Error>)
        ensures
            match self {
                Ok(v) => r matches Ok(w) && w == v,
                Err(e) => r matches Err(err) && is_storage_msg(err, sanakirja_error_message(e)),
            },
    {
        match self {
            Ok(v) => Ok(v),
            Err(e) => Err(err_into(e)),
        }
    }
}

/// Carries an absent value to the contract boundary as the given condition.
pub trait OptionExt<T>: Sized {
    fn map_storage_err(self, error: WorkersStorageError) -> Result<T, Error>;
}

impl<T> OptionExt<T> for Option<T> {
    fn map_storage_err(self, error: WorkersStorageError) -> (r: Result<T, Error>)
        ensures
            match self {
                Some(v) => r matches Ok(w) && w == v,
                None => r matches Err(err) && is_storage_msg(err, workers_error_message(error)),
            },
    {
        match self {
            Some(v) => Ok(v),
            None => Err(Error::StorageMsg(error.message())),
        }
    }
}

} // verus!
