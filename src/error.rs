//! Errors of the library.
use vstd::prelude::*;

verus! {

/// What can go wrong when a hierarchy is built or a period is read.
#[derive(Debug, Clone, PartialEq, Eq)]
pub enum HtsError {
    /// A time period text has none of the recognised shapes, or a number in
    /// it is out of range.
    InvalidPeriod(String),
    /// Two nodes of the hierarchy would share one id.
    Hierarchy(String),
    /// A named column is not in the table.
    ColumnNotFound(String),
}

/// Result of the library's fallible operations.
pub type Result<T> = core::result::Result<T, HtsError>;

} // verus!
