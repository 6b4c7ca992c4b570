//! The closed set of failures that a store operation can report.

use vstd::prelude::*;
use vstd::string::StringExecFns;

verus! {

/// Why an operation on the store did not succeed.
#[derive(Clone, Copy, Debug, PartialEq, Eq, Structural)]
pub enum StoreError {
    /// The storage location or its schema could not be prepared.
    SetupFailure,
    /// A statement was refused: malformed input or a violated constraint.
    StatementFailure,
    /// A read named a record that does not exist.
    NotFound,
}

impl StoreError {
    /// The text shown for each failure at the outermost interface.
    pub open spec fn message_text(self) -> Seq<char> {
        match self {
            StoreError::SetupFailure => "storage could not be prepared"@,
            StoreError::StatementFailure => "statement failed"@,
            StoreError::NotFound => "record not found"@,
        }
    }

    /// Renders the failure as the single message string that callers of the
    /// outermost interface receive.
    pub fn message(&self) -> (text: String)
        ensures
            text@ == self.message_text(),
    {
        match self {
            StoreError::SetupFailure => String::from_str("storage could not be prepared"),
            StoreError::StatementFailure => String::from_str("statement failed"),
            StoreError::NotFound => String::from_str("record not found"),
        }
    }
}

} // verus!
