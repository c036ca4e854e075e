//! Failures shared by every layer of the engine.

use vstd::prelude::*;

verus! {

/// The three families a failure belongs to.
#[derive(Clone, Copy, Debug, PartialEq, Eq, Structural)]
pub enum ErrorKind {
    /// A statement that cannot be carried out as given.
    InvalidInput,
    /// A value that checked arithmetic could not produce.
    Evaluation,
    /// A failure reported by the storage collaborator.
    Storage,
}

/// A failure of a statement. No operator retries after one.
#[derive(Clone, Copy, Debug, PartialEq, Eq, Structural)]
pub enum Error {
    /// A predicate evaluated to something that is neither a boolean nor NULL.
    NonBooleanPredicate,
    /// An operator was applied to operands of types it does not accept.
    TypeMismatch,
    /// A column index lies outside the row it is applied to.
    ColumnOutOfRange,
    /// An expression needed a row and none was supplied.
    MissingRow,
    /// A table of that name already exists.
    TableExists,
    /// No table of that name exists.
    TableNotFound,
    /// Checked arithmetic left the range of the value type.
    Overflow,
    /// Division by zero.
    DivisionByZero,
    /// The store reported a failure.
    Storage,
}

impl Error {
    /// The family of this failure.
    pub open spec fn spec_kind(self) -> ErrorKind {
        match self {
            Error::Overflow | Error::DivisionByZero => ErrorKind::Evaluation,
            Error::Storage => ErrorKind::Storage,
            _ => ErrorKind::InvalidInput,
        }
    }

    /// The words that describe this failure.
    pub open spec fn spec_message(self) -> Seq<char> {
        match self {
            Error::NonBooleanPredicate => "filter returned a value that is not a boolean"@,
            Error::TypeMismatch => "operands of types that the operator does not accept"@,
            Error::ColumnOutOfRange => "column index outside the row"@,
            Error::MissingRow => "expression needs a row and none was given"@,
            Error::TableExists => "table already exists"@,
            Error::TableNotFound => "table does not exist"@,
            Error::Overflow => "integer overflow"@,
            Error::DivisionByZero => "division by zero"@,
            Error::Storage => "the store reported a failure"@,
        }
    }

    /// The words that describe this failure to a user.
    pub fn message(&self) -> (s: String)
        ensures
            s@ == self.spec_message(),
    {
        match self {
            Error::NonBooleanPredicate => "filter returned a value that is not a boolean".to_owned(),
            Error::TypeMismatch => "operands of types that the operator does not accept".to_owned(),
            Error::ColumnOutOfRange => "column index outside the row".to_owned(),
            Error::MissingRow => "expression needs a row and none was given".to_owned(),
            Error::TableExists => "table already exists".to_owned(),
            Error::TableNotFound => "table does not exist".to_owned(),
            Error::Overflow => "integer overflow".to_owned(),
            Error::DivisionByZero => "division by zero".to_owned(),
            Error::Storage => "the store reported a failure".to_owned(),
        }
    }

    /// The family of this failure.
    pub fn kind(&self) -> (k: ErrorKind)
        ensures
            k == self.spec_kind(),
    {
        match self {
            Error::Overflow | Error::DivisionByZero => ErrorKind::Evaluation,
            Error::Storage => ErrorKind::Storage,
            _ => ErrorKind::InvalidInput,
        }
    }
}

} // verus!
