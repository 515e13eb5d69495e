//! The reasons for which an operation can fail.

use vstd::prelude::*;

verus! {

/// Why an operation failed.
#[derive(Debug, Clone, Copy, PartialEq, Eq, Structural)]
pub enum DbError {
    /// The transport to the disk or to the monitor failed.
    Io,
    /// A reply was not the decimal number that it should have been.
    MalformedNumber,
    /// The monitor sent a blank query line.
    EmptyQuery,
    /// A table has a blank name.
    EmptyTableName,
    /// A table has a blank file id.
    EmptyFileId,
    /// A table has no columns.
    NoColumns,
    /// Two tables share a name.
    DuplicateTableName,
    /// Two tables share a file id.
    DuplicateFileId,
    /// A column has a blank name.
    EmptyColumnName,
    /// Two columns of a table share a name.
    DuplicateColumnName,
    /// No table has the requested name or file id.
    UnknownTable,
    /// No visible column has the requested name.
    UnknownColumn,
    /// Two values have no order.
    Incomparable,
    /// A column index lies outside the row or the schema.
    BadIndex,
    /// A block is too short to hold its row count.
    BlockTooShort,
    /// The bytes end before the value does.
    ShortValue,
    /// A string is not terminated.
    MissingTerminator,
    /// A string is not valid UTF-8.
    InvalidUtf8,
    /// A row does not fit into one block.
    RowTooLarge,
    /// The scratch area has no block numbers left.
    OutOfBlocks,
    /// The size of a transfer does not match its block count.
    TransferSize,
    /// A hash table grew beyond its memory budget.
    BudgetExceeded,
}

} // verus!
