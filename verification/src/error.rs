//! What can go wrong, and what is said about it.

use vstd::prelude::*;

verus! {

/// Why an operation was refused.
#[derive(Debug, PartialEq, Eq)]
pub enum Error {
    /// Bytes that do not decode.
    Corruption(String),
    /// Bytes that could not be read.
    Io(String),
    /// A layout the type system rejects.
    InvalidSchema(String),
    /// A change the engine will not make.
    InvalidOptimization(String),
    /// No collection of that name.
    NoSuchCollection(String),
    /// A record with that id is already visible.
    RecordExists(u64),
    /// Another transaction committed a write to this record first.
    TransactionConflict { collection: String, id: u64 },
    /// Two records would share a value that may not be shared.
    UniqueViolation { collection: String, field: String, value: String },
    /// A request outside what is implemented.
    Unsupported(String),
}

/// What an [`Error`] says.
pub enum ErrorModel {
    Corruption(Seq<char>),
    Io(Seq<char>),
    InvalidSchema(Seq<char>),
    InvalidOptimization(Seq<char>),
    NoSuchCollection(Seq<char>),
    RecordExists(u64),
    TransactionConflict { collection: Seq<char>, id: u64 },
    UniqueViolation { collection: Seq<char>, field: Seq<char>, value: Seq<char> },
    Unsupported(Seq<char>),
}

impl View for Error {
    type V = ErrorModel;

    open spec fn view(&self) -> ErrorModel {
        match self {
            Error::Corruption(m) => ErrorModel::Corruption(m@),
            Error::Io(m) => ErrorModel::Io(m@),
            Error::InvalidSchema(m) => ErrorModel::InvalidSchema(m@),
            Error::InvalidOptimization(m) => ErrorModel::InvalidOptimization(m@),
            Error::NoSuchCollection(c) => ErrorModel::NoSuchCollection(c@),
            Error::RecordExists(id) => ErrorModel::RecordExists(*id),
            Error::TransactionConflict { collection, id } => ErrorModel::TransactionConflict {
                collection: collection@,
                id: *id,
            },
            Error::UniqueViolation { collection, field, value } => ErrorModel::UniqueViolation {
                collection: collection@,
                field: field@,
                value: value@,
            },
            Error::Unsupported(m) => ErrorModel::Unsupported(m@),
        }
    }
}

impl Error {
    /// An error that says the same.
    pub fn dup(&self) -> (e: Error)
        ensures
            e@ == self@,
    {
        match self {
            Error::Corruption(m) => Error::Corruption(m.clone()),
            Error::Io(m) => Error::Io(m.clone()),
            Error::InvalidSchema(m) => Error::InvalidSchema(m.clone()),
            Error::InvalidOptimization(m) => Error::InvalidOptimization(m.clone()),
            Error::NoSuchCollection(c) => Error::NoSuchCollection(c.clone()),
            Error::RecordExists(id) => Error::RecordExists(*id),
            Error::TransactionConflict { collection, id } => Error::TransactionConflict {
                collection: collection.clone(),
                id: *id,
            },
            Error::UniqueViolation { collection, field, value } => Error::UniqueViolation {
                collection: collection.clone(),
                field: field.clone(),
                value: value.clone(),
            },
            Error::Unsupported(m) => Error::Unsupported(m.clone()),
        }
    }
}

} // verus!
