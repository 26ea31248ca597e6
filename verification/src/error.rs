//! The failures that record access and sorting report.

use vstd::prelude::*;

verus! {

/// Why an operation on delimited text was given up.
#[derive(Clone, Copy, Debug, PartialEq, Eq, Structural)]
pub enum ViewerError {
    /// A row could not be parsed: its text is not valid UTF-8, or it has
    /// another number of fields than the first row parsed.
    Parse,
    /// A row that was to be sorted has no field at the chosen column.
    ColumnOutOfRange,
    /// A field index is not below the record's number of fields.
    OutOfRange,
    /// The delimiter is a character that does not fit in one byte.
    Delimiter,
}

} // verus!
