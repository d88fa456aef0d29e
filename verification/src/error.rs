//! The error kinds shared by every fallible operation of the store.

use vstd::prelude::*;

verus! {

/// One kind per failure class; nothing is retried automatically.
#[derive(Clone, Copy, Debug, PartialEq, Eq, Structural)]
pub enum TableLikeError {
    /// An underlying read, write, seek or open failed.
    IoError,
    /// A line does not match what the parser state expects.
    SyntaxError,
    /// A row block's cell count differs from the schema's column count.
    LengthMismatch,
    /// Numeric cell text failed to parse as a base-10 integer.
    DecodeError,
    /// A projection or predicate names a column absent from the schema.
    UnknownColumn,
    /// A flush into memory exceeded the configured row limit.
    CapacityExceeded,
    /// Uncategorized.
    Other,
}

impl TableLikeError {
    /// An uncategorized error described only by a free-form message;
    /// the message itself carries no meaning for any contract.
    pub fn new(msg: &str) -> (e: TableLikeError)
        ensures
            e == TableLikeError::Other,
    {
        let _ = msg;
        TableLikeError::Other
    }
}

} // verus!
