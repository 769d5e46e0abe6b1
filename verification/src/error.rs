//! The errors of the database.
use vstd::prelude::*;

verus! {

/// Errors that are neither codec nor store errors.
#[derive(Clone, Debug, PartialEq, Eq)]
pub enum OtherError {
    /// A range operation ran past the largest storage key.
    KeyspaceExceeded,
    /// A timestamp was asked for a block above the current one.
    BlockHeightTooHigh,
    /// Any other error, by its message.
    Message(String),
}

impl OtherError {
    /// The message of this error.
    pub fn message(&self) -> (r: String)
        ensures
            match self {
                OtherError::KeyspaceExceeded => r@ == "range op exceeded available keyspace"@,
                OtherError::BlockHeightTooHigh => r@ == "block height too high for timestamp"@,
                OtherError::Message(m) => r@ == m@,
            },
    {
        match self {
            OtherError::KeyspaceExceeded => "range op exceeded available keyspace".to_owned(),
            OtherError::BlockHeightTooHigh => "block height too high for timestamp".to_owned(),
            OtherError::Message(m) => m.clone(),
        }
    }
}

/// The error of the database's operations.
#[derive(Debug)]
#[non_exhaustive]
pub enum Error {
    /// A stored value could not be decoded (or a value encoded).
    Codec,
    /// The chain was already initialized.
    ChainAlreadyInitialized,
    /// The chain is not yet initialized.
    ChainUninitialized,
    /// The database has a version this code does not read.
    InvalidDatabaseVersion,
    /// An error of the underlying datastore.
    DatabaseError(Box<KvStoreError>),
    /// Any other error.
    Other(OtherError),
}

/// The error of a key-value store.
#[derive(Debug)]
pub enum KvStoreError {
    /// A generic error.
    Error(Box<Error>),
    /// A resource of the type named by the first field was not found at the
    /// place named by the second.
    NotFound(&'static str, &'static str),
}

/// The error of a transaction.
#[derive(Copy, Clone, Debug, PartialEq, Eq, Structural)]
pub enum TransactionError {
    Aborted,
}

impl From<Error> for KvStoreError {
    fn from(e: Error) -> (r: Self) {
        KvStoreError::Error(Box::new(e))
    }
}

impl vstd::std_specs::convert::FromSpecImpl<Error> for KvStoreError {
    open spec fn obeys_from_spec() -> bool {
        true
    }

    open spec fn from_spec(e: Error) -> KvStoreError {
        KvStoreError::Error(Box::new(e))
    }
}

impl From<KvStoreError> for Error {
    fn from(e: KvStoreError) -> (r: Self) {
        Error::DatabaseError(Box::new(e))
    }
}

impl vstd::std_specs::convert::FromSpecImpl<KvStoreError> for Error {
    open spec fn obeys_from_spec() -> bool {
        true
    }

    open spec fn from_spec(e: KvStoreError) -> Error {
        Error::DatabaseError(Box::new(e))
    }
}

} // verus!
